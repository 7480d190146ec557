//! A turn: what the user says, the rounds of asking the provider and calling tools, and
//! the reply.
//!
//! The caller asks the provider, asks the user, runs the tools and stores the rows;
//! [`Turn`] decides, after each step, what comes next.
use vstd::prelude::*;
use vstd::string::*;

use crate::attachments::Attachment;
use crate::config::AppConfig;
use crate::db::{MessageRow, NewMessage, NewMessageView};
use crate::json;
use crate::json::{Json, JsonView};
use crate::memory::MemoryState;
use crate::request;
use crate::request::{MessageView, RequestMessage};
use crate::round::{AccumView, RoundAccum};
use crate::stream;
use crate::stream::{EventView, StreamEvent};
use crate::text;
use crate::tools;
use crate::tools::{
    ActionView, CallView, HostAction, OutputView, SpecView, ToolCall, ToolOutput, ToolSpec,
};
use crate::usage;

verus! {

// ---------------------------------------------------------------------------
// Before a turn
// ---------------------------------------------------------------------------

/// The API key for a turn, or why there can be none: a key and a model have to be set.
pub fn ready(api_key: Option<String>, model: &str) -> (r: Result<String, String>)
    ensures
        match api_key {
            None => r matches Err(e) && e@
                == "API key not set — open Settings and add your key."@,
            Some(key) => if text::blank(model@) {
                r matches Err(e) && e@ == "No model selected — set a model in Settings."@
            } else {
                r matches Ok(k) && k@ == key@
            },
        },
{
    match api_key {
        None => Err("API key not set — open Settings and add your key.".to_owned()),
        Some(key) => if text::is_blank(model) {
            Err("No model selected — set a model in Settings.".to_owned())
        } else {
            Ok(key)
        },
    }
}

/// What is told of a conversation that is not there.
pub fn conversation_not_found(id: &str) -> (r: String)
    ensures
        r@ == "conversation not found: "@ + id@,
{
    let mut message = "conversation not found: ".to_owned();
    message.append(id);
    message
}

/// What is told of a request that could not be sent.
pub fn request_failed_text(error: &str) -> (r: String)
    ensures
        r@ == "create stream: "@ + error@,
{
    let mut message = "create stream: ".to_owned();
    message.append(error);
    message
}

/// What is told of a request that the provider refused.
pub fn request_refused_text(status: &str, detail: &str) -> (r: String)
    ensures
        r@ == "create stream: HTTP "@ + status@ + ": "@ + detail@,
{
    let mut message = "create stream: HTTP ".to_owned();
    message.append(status);
    message.append(": ");
    message.append(detail);
    message
}

// ---------------------------------------------------------------------------
// The model
// ---------------------------------------------------------------------------

/// How a turn has ended.
pub struct Ending {
    pub stop_reason: String,
    pub text: String,
    pub thinking: Option<String>,
}

/// What an ending holds.
#[verifier::ext_equal]
pub struct EndingView {
    pub stop_reason: Seq<char>,
    pub text: Seq<char>,
    pub thinking: Option<Seq<char>>,
}

impl View for Ending {
    type V = EndingView;

    open spec fn view(&self) -> EndingView {
        EndingView {
            stop_reason: self.stop_reason@,
            text: self.text@,
            thinking: text::opt_text(self.thinking),
        }
    }
}

/// What comes next in a turn.
pub enum Phase {
    /// The provider is asked.
    Ask,
    /// The tool of the call with this index is run.
    Call(usize),
    /// The turn is over.
    Over(Ending),
}

/// What comes next, by what it holds.
#[verifier::ext_equal]
pub enum PhaseView {
    Ask,
    Call(int),
    Over(EndingView),
}

impl View for Phase {
    type V = PhaseView;

    open spec fn view(&self) -> PhaseView {
        match self {
            Phase::Ask => PhaseView::Ask,
            Phase::Call(i) => PhaseView::Call(*i as int),
            Phase::Over(e) => PhaseView::Over(e@),
        }
    }
}

/// A turn.
pub struct Turn {
    conversation_id: String,
    model: String,
    provider: String,
    thinking_level: String,
    echo: bool,
    messages: Vec<RequestMessage>,
    offered: Vec<ToolSpec>,
    usage: Json,
    rounds: u32,
    thoughts: Vec<Option<String>>,
    calls: Vec<ToolCall>,
    phase: Phase,
}

/// What a turn holds: whose it is and how the provider is asked, the messages so far, the
/// tools, the tokens used, the rounds of tool calls, what the model thought in each of
/// them, at the place of its calls among the messages, the calls of this round, and what
/// comes next.
#[verifier::ext_equal]
pub struct TurnView {
    pub conversation_id: Seq<char>,
    pub model: Seq<char>,
    pub provider: Seq<char>,
    pub thinking_level: Seq<char>,
    pub echo: bool,
    pub messages: Seq<MessageView>,
    pub offered: Seq<SpecView>,
    pub usage: JsonView,
    pub rounds: u32,
    pub thoughts: Seq<Option<Seq<char>>>,
    pub calls: Seq<CallView>,
    pub phase: PhaseView,
}

impl View for Turn {
    type V = TurnView;

    closed spec fn view(&self) -> TurnView {
        TurnView {
            conversation_id: self.conversation_id@,
            model: self.model@,
            provider: self.provider@,
            thinking_level: self.thinking_level@,
            echo: self.echo,
            messages: request::message_views(self.messages@),
            offered: tools::spec_views(self.offered@),
            usage: self.usage@,
            rounds: self.rounds,
            thoughts: request::thought_views(self.thoughts@),
            calls: tools::call_views(self.calls@),
            phase: self.phase@,
        }
    }
}

/// Whether a turn is in order: it has not had more rounds than it may, every message has
/// a place for what the model thought, which only calls have something at, the call that
/// is run is one of the round's, and the tokens are counted in an object.
pub open spec fn sound(t: TurnView) -> bool {
    &&& t.rounds <= tools::MAX_TOOL_ROUNDS
    &&& t.thoughts.len() == t.messages.len()
    &&& forall|i: int|
        0 <= i < t.thoughts.len() && (#[trigger] t.thoughts[i]) is Some
            ==> t.messages[i] is AssistantCalls
    &&& t.phase matches PhaseView::Call(i) ==> 0 <= i < t.calls.len()
    &&& json::in_order(t.usage)
}

/// A text, unless it is empty.
pub open spec fn unless_empty(s: Seq<char>) -> Option<Seq<char>> {
    if s.len() == 0 {
        None
    } else {
        Some(s)
    }
}

/// A row of the turn.
pub open spec fn row(
    t: TurnView,
    role: Seq<char>,
    content: Seq<char>,
    thinking: Option<Seq<char>>,
) -> NewMessageView {
    NewMessageView {
        conversation_id: t.conversation_id,
        role,
        content,
        model: Some(t.model),
        provider: Some(t.provider),
        thinking_level: None,
        thinking,
        usage: None,
        stop_reason: None,
        attachments: None,
    }
}

/// The tokens of the turn after a round.
pub open spec fn counted(t: TurnView, used: Option<JsonView>) -> JsonView {
    match used {
        Some(u) => usage::with_context(usage::summed(t.usage, u), u),
        None => t.usage,
    }
}

/// Whether the tokens of a round can be counted.
pub open spec fn countable(t: TurnView, used: Option<JsonView>) -> bool {
    used matches Some(u) ==> usage::summable(t.usage, u)
}

/// A turn that has ended with what a round produced.
pub open spec fn ended(t: TurnView, reason: Seq<char>, a: AccumView) -> TurnView {
    TurnView {
        phase: PhaseView::Over(
            EndingView {
                stop_reason: reason,
                text: a.text,
                thinking: unless_empty(a.thinking),
            },
        ),
        ..t
    }
}

/// Whether a round asks for tools.
pub open spec fn asks_for_tools(a: AccumView) -> bool {
    a.finish == Some("tool_calls"@) && a.tool_calls.len() > 0
}

/// The turn after a round. It ends where it was cancelled, where the round failed, where
/// it has had all the rounds that it may have, and with a round that asks for no tools;
/// what the round produced is kept in any case. Else the tools are called.
pub open spec fn after_round(t: TurnView, a: AccumView, cancelled: bool) -> TurnView {
    let n = TurnView { usage: counted(t, a.usage), ..t };
    if cancelled {
        ended(n, "aborted"@, a)
    } else if a.failed {
        ended(n, "error"@, a)
    } else if t.rounds >= tools::MAX_TOOL_ROUNDS {
        ended(n, "length"@, a)
    } else if asks_for_tools(a) {
        TurnView {
            rounds: (t.rounds + 1) as u32,
            thoughts: t.thoughts.push(unless_empty(a.thinking)),
            messages: t.messages.push(
                MessageView::AssistantCalls { calls: request::told_calls(a.tool_calls) },
            ),
            calls: a.tool_calls,
            phase: PhaseView::Call(0),
            ..n
        }
    } else {
        ended(
            n,
            match a.finish {
                Some(reason) => reason,
                None => "stop"@,
            },
            a,
        )
    }
}

/// The rows that are stored after a round: what the model said before its calls, unless
/// it is blank, and the calls. The reasoning goes with the first of them.
pub open spec fn rows_of_round(t: TurnView, a: AccumView, cancelled: bool) -> Seq<NewMessageView> {
    let thinking = unless_empty(a.thinking);
    let stored = json::written(request::stored_calls(a.tool_calls));
    if cancelled || a.failed || t.rounds >= tools::MAX_TOOL_ROUNDS || !asks_for_tools(a) {
        Seq::empty()
    } else if text::blank(a.text) {
        seq![row(t, "assistant"@, stored, thinking)]
    } else {
        seq![row(t, "assistant"@, a.text, thinking), row(t, "assistant"@, stored, None)]
    }
}

/// What is done for a call.
#[verifier::ext_equal]
pub enum ToolActionView {
    Answer { output: OutputView },
    Search { query: Seq<char>, count: Option<u64> },
    Memory,
    Host { action: ActionView },
}

/// What is done for a call. A gated tool is run only with the user's word for it.
pub open spec fn action_of(call: CallView, verdict: Option<bool>) -> ToolActionView {
    if tools::gated(call.name) && verdict != Some(true) {
        ToolActionView::Answer { output: tools::denied() }
    } else if call.name == "web_search"@ {
        ToolActionView::Search {
            query: json::member_text_or_empty(call.arguments, "query"@),
            count: json::member_u64(call.arguments, "count"@),
        }
    } else if call.name == "save_memory"@ || call.name == "read_memory"@ {
        ToolActionView::Memory
    } else {
        ToolActionView::Host { action: tools::host_request(call) }
    }
}

/// The turn after a call. Where it was cancelled it ends without a reply: what there was
/// has been stored with the round.
pub open spec fn after_call(t: TurnView, output: OutputView, cancelled: bool) -> TurnView {
    match t.phase {
        PhaseView::Call(i) => TurnView {
            messages: t.messages.push(
                MessageView::Tool { content: output.content, call_id: t.calls[i].id },
            ),
            thoughts: t.thoughts.push(None),
            phase: if cancelled {
                PhaseView::Over(
                    EndingView { stop_reason: "aborted"@, text: Seq::empty(), thinking: None },
                )
            } else if i + 1 < t.calls.len() {
                PhaseView::Call(i + 1)
            } else {
                PhaseView::Ask
            },
            ..t
        },
        _ => t,
    }
}

/// The event that tells of a call.
pub open spec fn call_event(call: CallView) -> EventView {
    EventView::ToolCall {
        call_id: call.id,
        name: call.name,
        arguments: json::written(call.arguments),
        gated: tools::gated(call.name),
    }
}

/// The event that tells of the output of a call.
pub open spec fn result_event(call: CallView, output: OutputView) -> EventView {
    EventView::ToolResult {
        call_id: call.id,
        name: call.name,
        ok: !output.is_error,
        output: output.content,
    }
}

/// The row in which the output of a call is stored.
pub open spec fn result_row(t: TurnView, call: CallView, output: OutputView) -> NewMessageView {
    row(
        t,
        "tool"@,
        json::written(request::stored_result(call.id, call.name, output)),
        None,
    )
}

/// Whether a turn has used tokens that can be billed.
pub open spec fn billable(t: TurnView) -> bool {
    json::member(t.usage, "prompt_tokens"@) is Some || json::member(
        t.usage,
        "completion_tokens"@,
    ) is Some
}

/// The row in which the reply is stored, with what the turn used and cost.
pub open spec fn reply_row(t: TurnView, e: EndingView, cost: Option<JsonView>) -> NewMessageView {
    let used = match cost {
        Some(c) => json::with_member(t.usage, "cost"@, c),
        None => t.usage,
    };
    NewMessageView {
        usage: Some(json::written(used)),
        stop_reason: Some(e.stop_reason),
        ..row(t, "assistant"@, e.text, e.thinking)
    }
}

/// A turn as it begins.
pub open spec fn begun(
    conversation_id: Seq<char>,
    model: Seq<char>,
    provider: Seq<char>,
    thinking_level: Seq<char>,
    echo: bool,
    messages: Seq<MessageView>,
    web_search: bool,
) -> TurnView {
    TurnView {
        conversation_id,
        model,
        provider,
        thinking_level,
        echo,
        messages,
        offered: tools::offered(web_search),
        usage: json::empty_object(),
        rounds: 0,
        thoughts: Seq::new(messages.len(), |i: int| None),
        calls: Seq::empty(),
        phase: PhaseView::Ask,
    }
}

/// The messages of a turn as the provider is told them. Where the user wants it, the
/// calls of each round of this turn have what the model thought in it beside them.
pub open spec fn told_messages(t: TurnView) -> Seq<JsonView> {
    request::told(
        t.messages,
        if t.echo {
            t.thoughts
        } else {
            Seq::empty()
        },
    )
}

/// What is asked of the provider in a turn.
pub open spec fn asked(t: TurnView) -> JsonView {
    request::body_with(t.model, told_messages(t), t.offered, t.thinking_level)
}

// ---------------------------------------------------------------------------
// The turn
// ---------------------------------------------------------------------------

/// What is done for a call.
pub enum ToolAction {
    /// The call is answered at once.
    Answer { output: ToolOutput },
    /// The web is searched.
    Search { query: String, count: Option<u64> },
    /// The memory is asked.
    Memory,
    /// One of the host's tools is run.
    Host { action: HostAction },
}

impl View for ToolAction {
    type V = ToolActionView;

    open spec fn view(&self) -> ToolActionView {
        match self {
            ToolAction::Answer { output } => ToolActionView::Answer { output: output@ },
            ToolAction::Search { query, count } => ToolActionView::Search {
                query: query@,
                count: *count,
            },
            ToolAction::Memory => ToolActionView::Memory,
            ToolAction::Host { action } => ToolActionView::Host { action: action@ },
        }
    }
}

/// What is done for a call; `verdict` is the user's word on it, where they gave one.
pub fn tool_action(call: &ToolCall, verdict: Option<bool>) -> (r: ToolAction)
    ensures
        r@ == action_of(call@, verdict),
{
    let name = call.name.as_str();
    let approved = match verdict {
        Some(b) => b,
        None => false,
    };
    if tools::is_gated(name) && !approved {
        ToolAction::Answer { output: tools::denied_output() }
    } else if text::same(name, "web_search") {
        ToolAction::Search {
            query: call.arguments.get_str_or_empty("query"),
            count: call.arguments.get_u64("count"),
        }
    } else if text::same(name, "save_memory") || text::same(name, "read_memory") {
        ToolAction::Memory
    } else {
        ToolAction::Host { action: tools::host_action(call) }
    }
}

/// A text, unless it is empty.
fn take_unless_empty(s: String) -> (r: Option<String>)
    ensures
        text::opt_text(r) == unless_empty(s@),
{
    if s.as_str().is_empty() {
        None
    } else {
        Some(s)
    }
}

/// Appends a row.
fn push_row(rows: &mut Vec<NewMessage>, new: NewMessage)
    ensures
        row_views(final(rows)@) == row_views(old(rows)@).push(new@),
{
    rows.push(new);
    assert(row_views(rows@) =~= row_views(old(rows)@).push(new@));
}

/// What rows hold.
pub open spec fn row_views(v: Seq<NewMessage>) -> Seq<NewMessageView> {
    Seq::new(v.len(), |i: int| v[i]@)
}

/// The row in which what the user says is stored; `attachments` is what goes with it, as
/// JSON.
pub fn user_row(
    config: &AppConfig,
    conversation_id: &str,
    content: &str,
    attachments: Option<String>,
) -> (r: NewMessage)
    ensures
        r@ == (NewMessageView {
            conversation_id: conversation_id@,
            role: "user"@,
            content: content@,
            model: Some(config.model@),
            provider: Some(config.base_url@),
            thinking_level: None,
            thinking: None,
            usage: None,
            stop_reason: None,
            attachments: text::opt_text(attachments),
        }),
{
    NewMessage {
        conversation_id: conversation_id.to_owned(),
        role: "user".to_owned(),
        content: content.to_owned(),
        model: Some(config.model.clone()),
        provider: Some(config.base_url.clone()),
        thinking_level: None,
        thinking: None,
        usage: None,
        stop_reason: None,
        attachments,
    }
}

/// A place for a thought for each of `n` messages, with nothing at it.
fn no_thoughts(n: usize) -> (r: Vec<Option<String>>)
    ensures
        request::thought_views(r@) == Seq::new(n as nat, |i: int| None::<Seq<char>>),
{
    let mut out: Vec<Option<String>> = Vec::new();
    let mut i: usize = 0;
    while i < n
        invariant
            i <= n,
            out@.len() == i,
            forall|k: int| 0 <= k < i ==> (#[trigger] out@[k]) is None,
        decreases n - i,
    {
        out.push(None);
        i += 1;
    }
    assert(request::thought_views(out@) =~= Seq::new(n as nat, |i: int| None::<Seq<char>>));
    out
}

/// What a turn is begun with.
pub struct Setup {
    pub conversation_id: String,
    /// The conversation's own prompt, if it has one.
    pub system_prompt: Option<String>,
    /// The name under which the model is shown, if it is known.
    pub model_name: Option<String>,
    pub history: Vec<MessageRow>,
    /// What is attached to each row of the history, as far as it could be read.
    pub attached: Vec<Vec<Attachment>>,
    pub content: String,
    pub attachments: Vec<Attachment>,
    /// Whether the web can be searched.
    pub web_search: bool,
}

/// The prompt that a turn is begun with.
pub open spec fn setup_prompt(s: Setup, config: &AppConfig, memory: &MemoryState) -> Seq<char> {
    request::prompt_of(
        match text::opt_text(s.system_prompt) {
            Some(p) => p,
            None => request::DEFAULT_SYSTEM_PROMPT@,
        },
        match text::opt_text(s.model_name) {
            Some(n) => n,
            None => config.model@,
        },
        config.preferences@,
        memory@,
    )
}

impl Turn {
    /// Begins a turn.
    pub fn begin(setup: Setup, config: &AppConfig, memory: &MemoryState) -> (r: Self)
        ensures
            sound(r@),
            r@ == begun(
                setup.conversation_id@,
                config.model@,
                config.base_url@,
                config.thinking_level@,
                config.echo_reasoning_content,
                request::conversation(
                    setup_prompt(setup, config, memory),
                    crate::db::row_views(setup.history@),
                    request::attached_views(setup.attached@),
                    setup.content@,
                    crate::attachments::views(setup.attachments@),
                ),
                setup.web_search,
            ),
    {
        let base = match &setup.system_prompt {
            Some(p) => p.as_str(),
            None => request::DEFAULT_SYSTEM_PROMPT,
        };
        let label = match &setup.model_name {
            Some(n) => n.as_str(),
            None => config.model.as_str(),
        };
        let prompt = request::build_system_prompt(
            base,
            label,
            config.preferences.as_str(),
            memory,
        );
        let messages = request::build_messages(
            prompt.as_str(),
            &setup.history,
            &setup.attached,
            setup.content.as_str(),
            &setup.attachments,
        );
        let thoughts = no_thoughts(messages.len());
        let r = Turn {
            conversation_id: setup.conversation_id,
            model: config.model.clone(),
            provider: config.base_url.clone(),
            thinking_level: config.thinking_level.clone(),
            echo: config.echo_reasoning_content,
            messages,
            offered: tools::tool_specs(setup.web_search),
            usage: Json::empty(),
            rounds: 0,
            thoughts,
            calls: Vec::new(),
            phase: Phase::Ask,
        };
        assert(tools::call_views(r.calls@) =~= Seq::<CallView>::empty());
        r
    }

    /// What comes next.
    pub fn phase<'a>(&'a self) -> (r: &'a Phase)
        ensures
            r@ == self@.phase,
    {
        &self.phase
    }

    /// What is asked of the provider.
    pub fn body(&self) -> (r: Json)
        ensures
            r@ == asked(self@),
    {
        if self.echo {
            request::completion_body_with_thoughts(
                self.model.as_str(),
                &self.messages,
                &self.thoughts,
                &self.offered,
                self.thinking_level.as_str(),
            )
        } else {
            let none: Vec<Option<String>> = Vec::new();
            assert(request::thought_views(none@) =~= Seq::<Option<Seq<char>>>::empty());
            request::completion_body_with_thoughts(
                self.model.as_str(),
                &self.messages,
                &none,
                &self.offered,
                self.thinking_level.as_str(),
            )
        }
    }

    /// Ends the turn, since the provider could not be asked.
    pub fn request_failed(&mut self, error: String, events: &mut Vec<StreamEvent>)
        requires
            sound(old(self)@),
        ensures
            sound(final(self)@),
            final(self)@ == (TurnView {
                phase: PhaseView::Over(
                    EndingView { stop_reason: "error"@, text: Seq::empty(), thinking: None },
                ),
                ..old(self)@
            }),
            stream::event_views(final(events)@) == stream::event_views(old(events)@).push(
                EventView::Error { message: error@ },
            ),
    {
        let nothing = String::new();
        assert(nothing@ =~= Seq::<char>::empty());
        self.phase = Phase::Over(
            Ending { stop_reason: "error".to_owned(), text: nothing, thinking: None },
        );
        stream::push_event(events, StreamEvent::Error { message: error });
    }

    /// Whether the tokens of a round can be counted.
    pub fn can_count(&self, round: &RoundAccum) -> (r: bool)
        ensures
            r == countable(self@, round@.usage),
    {
        match &round.usage {
            Some(u) => usage::can_sum(&self.usage, u),
            None => true,
        }
    }

    /// A row of the turn.
    fn make_row(&self, role: &str, content: String, thinking: Option<String>) -> (r: NewMessage)
        ensures
            r@ == row(self@, role@, content@, text::opt_text(thinking)),
    {
        NewMessage {
            conversation_id: self.conversation_id.clone(),
            role: role.to_owned(),
            content,
            model: Some(self.model.clone()),
            provider: Some(self.provider.clone()),
            thinking_level: None,
            thinking,
            usage: None,
            stop_reason: None,
            attachments: None,
        }
    }

    /// Takes what a round produced; `rows` get what is to be stored of it.
    pub fn round_done(&mut self, round: RoundAccum, cancelled: bool, rows: &mut Vec<NewMessage>)
        requires
            sound(old(self)@),
            countable(old(self)@, round@.usage),
        ensures
            sound(final(self)@),
            final(self)@ == after_round(old(self)@, round@, cancelled),
            row_views(final(rows)@) == row_views(old(rows)@) + rows_of_round(
                old(self)@,
                round@,
                cancelled,
            ),
    {
        let ghost t = self@;
        let ghost a = round@;
        let ghost before = row_views(rows@);
        proof {
            lemma_counted(t, a.usage);
        }
        usage::sum_usage(&mut self.usage, &round.usage);
        usage::track_context(&mut self.usage, &round.usage);
        let ghost n = TurnView { usage: counted(t, a.usage), ..t };
        assert(self@ =~= n);
        let tools_asked = match &round.finish {
            Some(f) => text::same(f.as_str(), "tool_calls") && round.tool_calls.len() > 0,
            None => false,
        };
        assert(tools_asked == asks_for_tools(a));
        if cancelled || round.failed || self.rounds >= tools::MAX_TOOL_ROUNDS || !tools_asked {
            let stop_reason = if cancelled {
                "aborted".to_owned()
            } else if round.failed {
                "error".to_owned()
            } else if self.rounds >= tools::MAX_TOOL_ROUNDS {
                "length".to_owned()
            } else {
                match round.finish {
                    Some(reason) => reason,
                    None => "stop".to_owned(),
                }
            };
            self.phase = Phase::Over(
                Ending {
                    stop_reason,
                    text: round.text,
                    thinking: take_unless_empty(round.thinking),
                },
            );
            assert(self@ =~= after_round(t, a, cancelled));
            assert(row_views(rows@) =~= before + rows_of_round(t, a, cancelled));
            return;
        }
        let thinking = take_unless_empty(round.thinking);
        let stored = request::encode_tool_calls(&round.tool_calls);
        let told = request::request_calls(&round.tool_calls);
        let kept = text::copy_opt(&thinking);
        if text::is_blank(round.text.as_str()) {
            let new = self.make_row("assistant", stored, thinking);
            push_row(rows, new);
        } else {
            let said = self.make_row("assistant", round.text, thinking);
            push_row(rows, said);
            let new = self.make_row("assistant", stored, None);
            push_row(rows, new);
        }
        assert(row_views(rows@) =~= before + rows_of_round(t, a, cancelled));
        self.rounds = self.rounds + 1;
        let ghost thoughts = request::thought_views(self.thoughts@);
        self.thoughts.push(kept);
        assert(request::thought_views(self.thoughts@) =~= thoughts.push(unless_empty(a.thinking)));
        let ghost messages = request::message_views(self.messages@);
        let message = RequestMessage::AssistantCalls { calls: told };
        self.messages.push(message);
        assert(request::message_views(self.messages@) =~= messages.push(message@));
        self.calls = round.tool_calls;
        self.phase = Phase::Call(0);
        assert(self@ =~= after_round(t, a, cancelled));
    }

    /// The call whose tool is run next; an event tells of it.
    pub fn next_call(&self, events: &mut Vec<StreamEvent>) -> (r: ToolCall)
        requires
            sound(self@),
            self@.phase is Call,
        ensures
            self@.phase matches PhaseView::Call(i) && r@ == self@.calls[i],
            stream::event_views(final(events)@) == stream::event_views(old(events)@).push(
                call_event(r@),
            ),
    {
        let i: usize = match &self.phase {
            Phase::Call(i) => *i,
            _ => 0,
        };
        let call = tools::copy_call(&self.calls[i]);
        stream::push_event(
            events,
            StreamEvent::ToolCall {
                call_id: call.id.clone(),
                name: call.name.clone(),
                arguments: json::to_text(&call.arguments),
                gated: tools::is_gated(call.name.as_str()),
            },
        );
        call
    }

    /// Takes the output of the call; an event tells of it, and a row is to be stored.
    pub fn call_done(
        &mut self,
        output: ToolOutput,
        cancelled: bool,
        events: &mut Vec<StreamEvent>,
    ) -> (r: NewMessage)
        requires
            sound(old(self)@),
            old(self)@.phase is Call,
        ensures
            sound(final(self)@),
            final(self)@ == after_call(old(self)@, output@, cancelled),
            old(self)@.phase matches PhaseView::Call(i) && r@ == result_row(
                old(self)@,
                old(self)@.calls[i],
                output@,
            ) && stream::event_views(final(events)@) == stream::event_views(old(events)@).push(
                result_event(old(self)@.calls[i], output@),
            ),
    {
        let ghost t = self@;
        let i: usize = match &self.phase {
            Phase::Call(i) => *i,
            _ => 0,
        };
        let call = tools::copy_call(&self.calls[i]);
        assert(call@ == t.calls[i as int]);
        let stored = request::encode_tool_result(call.id.as_str(), call.name.as_str(), &output);
        let new = self.make_row("tool", stored, None);
        stream::push_event(
            events,
            StreamEvent::ToolResult {
                call_id: call.id.clone(),
                name: call.name.clone(),
                ok: !output.is_error,
                output: output.content.clone(),
            },
        );
        let ghost messages = request::message_views(self.messages@);
        let message = RequestMessage::Tool { content: output.content, call_id: call.id };
        self.messages.push(message);
        assert(request::message_views(self.messages@) =~= messages.push(message@));
        let ghost thoughts = request::thought_views(self.thoughts@);
        self.thoughts.push(None);
        assert(request::thought_views(self.thoughts@) =~= thoughts.push(None));
        if cancelled {
            let nothing = String::new();
            assert(nothing@ =~= Seq::<char>::empty());
            self.phase = Phase::Over(
                Ending { stop_reason: "aborted".to_owned(), text: nothing, thinking: None },
            );
        } else if self.calls.len() - i > 1 {
            self.phase = Phase::Call(i + 1);
        } else {
            self.phase = Phase::Ask;
        }
        assert(self@ =~= after_call(t, output@, cancelled));
        new
    }

    /// What the turn used, where it can be billed.
    pub fn billed_usage<'a>(&'a self) -> (r: Option<&'a Json>)
        ensures
            match r {
                Some(u) => billable(self@) && u@ == self@.usage,
                None => !billable(self@),
            },
    {
        if self.usage.get("prompt_tokens").is_some() || self.usage.get(
            "completion_tokens",
        ).is_some() {
            Some(&self.usage)
        } else {
            None
        }
    }

    /// The row in which the reply is stored, with what the turn cost, where that is known;
    /// an event tells that the turn is over.
    pub fn finish(self, cost: Option<Json>, events: &mut Vec<StreamEvent>) -> (r: NewMessage)
        requires
            sound(self@),
            self@.phase is Over,
        ensures
            self@.phase matches PhaseView::Over(e) && r@ == reply_row(
                self@,
                e,
                json::opt_view(cost),
            ) && stream::event_views(final(events)@) == stream::event_views(old(events)@).push(
                EventView::Done { stop_reason: e.stop_reason },
            ),
    {
        let (stop_reason, reply, thinking) = match &self.phase {
            Phase::Over(e) => (
                e.stop_reason.clone(),
                e.text.clone(),
                text::copy_opt(&e.thinking),
            ),
            _ => (String::new(), String::new(), None),
        };
        let used = match cost {
            Some(c) => self.usage.duplicate().with("cost", c),
            None => self.usage.duplicate(),
        };
        let mut new = self.make_row("assistant", reply, thinking);
        new.usage = Some(json::to_text(&used));
        new.stop_reason = Some(stop_reason.clone());
        stream::push_event(events, StreamEvent::Done { stop_reason });
        new
    }
}

// ---------------------------------------------------------------------------
// Laws
// ---------------------------------------------------------------------------

/// Counting a round keeps the counts in an object.
proof fn lemma_counted(t: TurnView, used: Option<JsonView>)
    requires
        json::in_order(t.usage),
        countable(t, used),
    ensures
        json::in_order(counted(t, used)),
{
    if let Some(u) = used {
        usage::law_usage_adds_up(t.usage, u);
        let n = usage::summed(t.usage, u);
        let prompt = usage::count(u, "prompt_tokens"@);
        let completion = usage::count(u, "completion_tokens"@);
        json::lemma_with_member(
            n,
            "context_tokens"@,
            JsonView::Number(json::integer((prompt + completion) as i64)),
        );
    }
}

/// A turn does not go on for ever: a round after which tools are called uses up one of
/// the rounds that it may have, and after the last of them it ends.
pub proof fn law_rounds_are_capped(t: TurnView, a: AccumView, cancelled: bool)
    requires
        sound(t),
        countable(t, a.usage),
    ensures
        ({
            let n = after_round(t, a, cancelled);
            &&& sound(n)
            &&& t.rounds == tools::MAX_TOOL_ROUNDS ==> n.phase is Over
            &&& !(n.phase is Over) ==> n.rounds == t.rounds + 1
        }),
{
    lemma_counted(t, a.usage);
}

/// Calling the tools of a round comes to an end: each call that is done leaves fewer, and
/// uses up no round.
pub proof fn law_calls_come_to_an_end(t: TurnView, output: OutputView, cancelled: bool)
    requires
        sound(t),
        t.phase is Call,
    ensures
        ({
            let n = after_call(t, output, cancelled);
            &&& sound(n)
            &&& n.rounds == t.rounds && n.calls == t.calls
            &&& match (t.phase, n.phase) {
                (PhaseView::Call(i), PhaseView::Call(j)) => j == i + 1,
                _ => true,
            }
        }),
{
}

/// A tool that reaches the user's machine is never run without their word for it, and one
/// that does not is run without asking.
pub proof fn law_gated_tools_wait_for_approval(call: CallView, verdict: Option<bool>)
    ensures
        tools::gated(call.name) && verdict != Some(true) ==> action_of(call, verdict)
            == (ToolActionView::Answer { output: tools::denied() }),
        !tools::gated(call.name) ==> action_of(call, verdict) == action_of(call, Some(true)),
{
}

/// What has come of a reply is kept where the turn ends with the round: where it was
/// cancelled, where it failed, and where it had all its rounds.
pub proof fn law_partial_reply_is_stored(t: TurnView, a: AccumView, cancelled: bool)
    requires
        cancelled || a.failed || t.rounds >= tools::MAX_TOOL_ROUNDS || !asks_for_tools(a),
    ensures
        after_round(t, a, cancelled).phase matches PhaseView::Over(e) && e.text == a.text
            && e.thinking == unless_empty(a.thinking) && (cancelled ==> e.stop_reason == "aborted"@)
            && (!cancelled && a.failed ==> e.stop_reason == "error"@),
{
}

/// The reasoning of a round is stored once, with the first of its rows.
pub proof fn law_reasoning_is_stored_once(t: TurnView, a: AccumView)
    requires
        !a.failed,
        t.rounds < tools::MAX_TOOL_ROUNDS,
        asks_for_tools(a),
    ensures
        ({
            let rows = rows_of_round(t, a, false);
            &&& 1 <= rows.len() <= 2
            &&& rows[0].thinking == unless_empty(a.thinking)
            &&& rows.len() == 2 ==> rows[1].thinking is None && rows[0].content == a.text
            &&& rows.last().content == json::written(request::stored_calls(a.tool_calls))
        }),
{
}

/// The turn after the outputs of calls, one after the other.
pub open spec fn after_calls(t: TurnView, outputs: Seq<OutputView>) -> TurnView
    decreases outputs.len(),
{
    if outputs.len() == 0 {
        t
    } else {
        after_call(after_calls(t, outputs.drop_last()), outputs.last(), false)
    }
}

/// The turn after rounds, each with the outputs of its calls, one after the other.
pub open spec fn after_rounds(t: TurnView, script: Seq<(AccumView, Seq<OutputView>)>) -> TurnView
    decreases script.len(),
{
    if script.len() == 0 {
        t
    } else {
        let before = after_rounds(t, script.drop_last());
        if before.phase is Ask {
            let (a, outputs) = script.last();
            after_calls(after_round(before, a, false), outputs)
        } else {
            before
        }
    }
}

/// Outputs of calls use up no round, and a turn that is over stays so.
proof fn lemma_calls_keep_rounds(t: TurnView, outputs: Seq<OutputView>)
    ensures
        after_calls(t, outputs).rounds == t.rounds,
        t.phase is Over ==> after_calls(t, outputs) == t,
    decreases outputs.len(),
{
    if outputs.len() > 0 {
        lemma_calls_keep_rounds(t, outputs.drop_last());
    }
}

/// Whatever the provider and the tools say, a turn asks the provider no more often than it
/// may have rounds, and once more for its reply: after that many rounds it asks no more.
pub proof fn law_turn_stops_asking(t: TurnView, script: Seq<(AccumView, Seq<OutputView>)>)
    requires
        t.rounds <= tools::MAX_TOOL_ROUNDS,
    ensures
        after_rounds(t, script).rounds <= tools::MAX_TOOL_ROUNDS,
        script.len() > tools::MAX_TOOL_ROUNDS - t.rounds ==> !(after_rounds(t, script).phase is Ask),
        after_rounds(t, script).phase is Ask ==> after_rounds(t, script).rounds == t.rounds
            + script.len(),
    decreases script.len(),
{
    if script.len() > 0 {
        law_turn_stops_asking(t, script.drop_last());
        let before = after_rounds(t, script.drop_last());
        if before.phase is Ask {
            let (a, outputs) = script.last();
            lemma_calls_keep_rounds(after_round(before, a, false), outputs);
        }
    }
}

/// What outputs leave of a turn whose round has called its tools.
proof fn lemma_after_calls(t: TurnView, outputs: Seq<OutputView>)
    requires
        t.phase == PhaseView::Call(0),
        outputs.len() <= t.calls.len(),
        t.calls.len() > 0,
    ensures
        ({
            let n = after_calls(t, outputs);
            &&& n.phase == if outputs.len() < t.calls.len() {
                PhaseView::Call(outputs.len() as int)
            } else {
                PhaseView::Ask
            }
            &&& n == TurnView {
                phase: n.phase,
                messages: n.messages,
                thoughts: n.thoughts,
                ..t
            }
            &&& n.messages == t.messages + Seq::new(
                outputs.len(),
                |i: int|
                    MessageView::Tool { content: outputs[i].content, call_id: t.calls[i].id },
            )
        }),
    decreases outputs.len(),
{
    let n = after_calls(t, outputs);
    if outputs.len() == 0 {
        assert(n.messages =~= t.messages + Seq::new(
            outputs.len(),
            |i: int| MessageView::Tool { content: outputs[i].content, call_id: t.calls[i].id },
        ));
    } else {
        lemma_after_calls(t, outputs.drop_last());
        assert(n.messages =~= t.messages + Seq::new(
            outputs.len(),
            |i: int| MessageView::Tool { content: outputs[i].content, call_id: t.calls[i].id },
        ));
    }
}

/// Whether `n` is `t` with messages after those that it had, which have the thoughts that
/// they had.
spec fn goes_on(t: TurnView, n: TurnView) -> bool {
    &&& n.echo == t.echo
    &&& t.messages.len() <= n.messages.len()
    &&& n.thoughts.len() == n.messages.len()
    &&& n.messages.take(t.messages.len() as int) == t.messages
    &&& n.thoughts.take(t.messages.len() as int) == t.thoughts
}

/// Going on and going on is going on.
proof fn lemma_goes_on(t: TurnView, m: TurnView, n: TurnView)
    requires
        t.thoughts.len() == t.messages.len(),
        goes_on(t, m),
        goes_on(m, n),
    ensures
        goes_on(t, n),
{
    let k = t.messages.len() as int;
    assert(n.messages.take(k) =~= n.messages.take(m.messages.len() as int).take(k));
    assert(n.thoughts.take(k) =~= n.thoughts.take(m.messages.len() as int).take(k));
}

/// Outputs are told after the rest, and have no thought.
proof fn lemma_calls_go_on(t: TurnView, outputs: Seq<OutputView>)
    requires
        t.thoughts.len() == t.messages.len(),
    ensures
        goes_on(t, after_calls(t, outputs)),
        forall|i: int|
            t.messages.len() <= i < after_calls(t, outputs).thoughts.len() ==> (
            #[trigger] after_calls(t, outputs).thoughts[i]) is None,
    decreases outputs.len(),
{
    let n = after_calls(t, outputs);
    if outputs.len() == 0 {
        assert(n.messages.take(t.messages.len() as int) =~= t.messages);
        assert(n.thoughts.take(t.messages.len() as int) =~= t.thoughts);
    } else {
        let before = after_calls(t, outputs.drop_last());
        lemma_calls_go_on(t, outputs.drop_last());
        let k = before.messages.len() as int;
        assert(n.messages.take(k) =~= before.messages);
        assert(n.thoughts.take(k) =~= before.thoughts);
        assert(goes_on(before, n));
        lemma_goes_on(t, before, n);
    }
}

/// A round is told after the rest.
proof fn lemma_round_goes_on(t: TurnView, a: AccumView)
    requires
        t.thoughts.len() == t.messages.len(),
    ensures
        goes_on(t, after_round(t, a, false)),
{
    let n = after_round(t, a, false);
    let k = t.messages.len() as int;
    assert(n.messages.take(k) =~= t.messages);
    assert(n.thoughts.take(k) =~= t.thoughts);
}

/// Rounds are told after the rest, whatever comes of them.
proof fn lemma_rounds_go_on(
    t: TurnView,
    script: Seq<(AccumView, Seq<OutputView>)>,
    from: int,
)
    requires
        t.thoughts.len() == t.messages.len(),
        0 <= from <= script.len(),
    ensures
        after_rounds(t, script).thoughts.len() == after_rounds(t, script).messages.len(),
        goes_on(after_rounds(t, script.take(from)), after_rounds(t, script)),
    decreases script.len(),
{
    let n = after_rounds(t, script);
    assert(script.take(script.len() as int) =~= script);
    if script.len() > 0 {
        let before = after_rounds(t, script.drop_last());
        lemma_rounds_go_on(t, script.drop_last(), 0);
        if before.phase is Ask {
            let (a, outputs) = script.last();
            let r = after_round(before, a, false);
            lemma_round_goes_on(before, a);
            lemma_calls_go_on(r, outputs);
            lemma_goes_on(before, r, n);
        } else {
            assert(before.messages.take(before.messages.len() as int) =~= before.messages);
            assert(before.thoughts.take(before.messages.len() as int) =~= before.thoughts);
        }
        if from < script.len() {
            assert(script.drop_last().take(from) =~= script.take(from));
            lemma_rounds_go_on(t, script.drop_last(), from);
            lemma_goes_on(after_rounds(t, script.take(from)), before, n);
        }
    }
    if from == script.len() {
        assert(n.messages.take(n.messages.len() as int) =~= n.messages);
        assert(n.thoughts.take(n.messages.len() as int) =~= n.thoughts);
    }
}

/// What was told stands at the front of what is told where a turn goes on.
proof fn lemma_told_prefix(t: TurnView, n: TurnView)
    requires
        t.thoughts.len() == t.messages.len(),
        goes_on(t, n),
    ensures
        told_messages(n).take(t.messages.len() as int) == told_messages(t),
{
    let k = t.messages.len() as int;
    assert forall|i: int| 0 <= i < k implies told_messages(n)[i] == #[trigger] told_messages(t)[i] by {
        assert(n.messages.take(k)[i] == n.messages[i]);
        assert(n.thoughts.take(k)[i] == n.thoughts[i]);
    }
    assert(told_messages(n).take(k) =~= told_messages(t));
}

/// Once the tools of a round were called, the provider is asked again. It is told what it
/// was told before, the calls and what came of each, in their order. What the model
/// thought in the round stands with its calls, where the user wants it and it is not
/// blank, and what it thought in the rounds before stays with theirs.
pub proof fn law_round_is_told_with_its_reasoning(
    t: TurnView,
    a: AccumView,
    outputs: Seq<OutputView>,
)
    requires
        sound(t),
        t.rounds < tools::MAX_TOOL_ROUNDS,
        !a.failed,
        asks_for_tools(a),
        outputs.len() == a.tool_calls.len(),
    ensures
        ({
            let n = after_calls(after_round(t, a, false), outputs);
            let calls = MessageView::AssistantCalls {
                calls: request::told_calls(a.tool_calls),
            };
            &&& n.phase is Ask
            &&& told_messages(n) == told_messages(t).push(
                if t.echo && !text::blank(a.thinking) {
                    json::with_member(
                        request::message_json(calls),
                        "reasoning_content"@,
                        request::txt(a.thinking),
                    )
                } else {
                    request::message_json(calls)
                },
            ) + Seq::new(
                outputs.len(),
                |j: int|
                    request::message_json(
                        MessageView::Tool {
                            content: outputs[j].content,
                            call_id: a.tool_calls[j].id,
                        },
                    ),
            )
        }),
{
    let r = after_round(t, a, false);
    let n = after_calls(r, outputs);
    let k = t.messages.len() as int;
    lemma_after_calls(r, outputs);
    lemma_calls_go_on(r, outputs);
    lemma_round_goes_on(t, a);
    lemma_goes_on(t, r, n);
    lemma_told_prefix(t, n);
    if a.thinking.len() == 0 {
        assert(text::blank(a.thinking));
    }
    assert(n.thoughts[k] == n.thoughts.take(k + 1)[k]);
    let calls = MessageView::AssistantCalls { calls: request::told_calls(a.tool_calls) };
    let with_calls = told_messages(t).push(
        if t.echo && !text::blank(a.thinking) {
            json::with_member(
                request::message_json(calls),
                "reasoning_content"@,
                request::txt(a.thinking),
            )
        } else {
            request::message_json(calls)
        },
    );
    let after = Seq::new(
        outputs.len(),
        |j: int|
            request::message_json(
                MessageView::Tool { content: outputs[j].content, call_id: a.tool_calls[j].id },
            ),
    );
    assert forall|i: int| 0 <= i < told_messages(n).len() implies #[trigger] told_messages(n)[i]
        == (with_calls + after)[i] by {
        if i < k {
            assert(told_messages(n).take(k)[i] == told_messages(n)[i]);
        } else if i > k {
            assert(n.thoughts[i] is None);
            assert(n.messages[i] == MessageView::Tool {
                content: outputs[i - k - 1].content,
                call_id: a.tool_calls[i - k - 1].id,
            });
        }
    }
    assert(told_messages(n) =~= with_calls + after);
}

/// In every request of a turn, the calls of each round that was had have what the model
/// thought in that round beside them, unless it is blank: also those of earlier rounds.
pub proof fn law_each_round_keeps_its_reasoning(
    t: TurnView,
    script: Seq<(AccumView, Seq<OutputView>)>,
    j: int,
)
    requires
        sound(t),
        t.echo,
        0 <= j < script.len(),
        after_rounds(t, script).phase is Ask,
    ensures
        ({
            let k = after_rounds(t, script.take(j)).messages.len() as int;
            let (a, _) = script[j];
            let calls = MessageView::AssistantCalls {
                calls: request::told_calls(a.tool_calls),
            };
            &&& k < told_messages(after_rounds(t, script)).len()
            &&& told_messages(after_rounds(t, script))[k] == if text::blank(a.thinking) {
                request::message_json(calls)
            } else {
                json::with_member(
                    request::message_json(calls),
                    "reasoning_content"@,
                    request::txt(a.thinking),
                )
            }
        }),
{
    let n = after_rounds(t, script);
    let before = after_rounds(t, script.take(j));
    let next = after_rounds(t, script.take(j + 1));
    let (a, outputs) = script[j];
    let k = before.messages.len() as int;
    assert(script.take(j + 1).drop_last() =~= script.take(j));
    assert(script.take(j + 1).last() == script[j]);
    lemma_asks_before(t, script, j);
    lemma_asks_before(t, script, j + 1);
    lemma_rounds_go_on(t, script.take(j), 0);
    lemma_rounds_go_on(t, script.take(j + 1), 0);
    lemma_rounds_go_on(t, script, j + 1);
    let r = after_round(before, a, false);
    lemma_calls_keep_rounds(r, outputs);
    assert(!(r.phase is Over));
    lemma_calls_go_on(r, outputs);
    lemma_told_prefix(next, n);
    assert(told_messages(n).take(next.messages.len() as int)[k] == told_messages(n)[k]);
    assert(next.messages.take(k + 1)[k] == next.messages[k]);
    assert(next.thoughts.take(k + 1)[k] == next.thoughts[k]);
    assert(n.echo == next.echo && next.echo == r.echo);
    lemma_rounds_keep_echo(t, script.take(j));
    if a.thinking.len() == 0 {
        assert(text::blank(a.thinking));
    }
}

/// A turn that asks after rounds has asked before each of them.
proof fn lemma_asks_before(t: TurnView, script: Seq<(AccumView, Seq<OutputView>)>, j: int)
    requires
        0 <= j <= script.len(),
        after_rounds(t, script).phase is Ask,
    ensures
        after_rounds(t, script.take(j)).phase is Ask,
    decreases script.len(),
{
    if j == script.len() {
        assert(script.take(j) =~= script);
    } else {
        assert(script.drop_last().take(j) =~= script.take(j));
        lemma_asks_before(t, script.drop_last(), j);
    }
}

/// Rounds do not change what the user wants.
proof fn lemma_rounds_keep_echo(t: TurnView, script: Seq<(AccumView, Seq<OutputView>)>)
    ensures
        after_rounds(t, script).echo == t.echo,
    decreases script.len(),
{
    if script.len() > 0 {
        lemma_rounds_keep_echo(t, script.drop_last());
        let before = after_rounds(t, script.drop_last());
        lemma_calls_keep_echo(after_round(before, script.last().0, false), script.last().1);
    }
}

/// Outputs do not change what the user wants.
proof fn lemma_calls_keep_echo(t: TurnView, outputs: Seq<OutputView>)
    ensures
        after_calls(t, outputs).echo == t.echo,
    decreases outputs.len(),
{
    if outputs.len() > 0 {
        lemma_calls_keep_echo(t, outputs.drop_last());
    }
}

/// What the model thought in an earlier turn is not sent: a turn begins without a thought,
/// and the messages that it begins with stay without one. Nor is any sent where the user
/// does not want it.
pub proof fn law_reasoning_stays_in_its_turn(
    conversation_id: Seq<char>,
    model: Seq<char>,
    provider: Seq<char>,
    thinking_level: Seq<char>,
    echo: bool,
    messages: Seq<MessageView>,
    web_search: bool,
    script: Seq<(AccumView, Seq<OutputView>)>,
    i: int,
)
    ensures
        ({
            let t = begun(
                conversation_id,
                model,
                provider,
                thinking_level,
                echo,
                messages,
                web_search,
            );
            let n = after_rounds(t, script);
            &&& sound(t)
            &&& 0 <= i < messages.len() ==> told_messages(n)[i] == request::message_json(
                messages[i],
            )
            &&& !echo && 0 <= i < n.messages.len() ==> told_messages(n)[i]
                == request::message_json(n.messages[i])
        }),
{
    let t = begun(
        conversation_id,
        model,
        provider,
        thinking_level,
        echo,
        messages,
        web_search,
    );
    let n = after_rounds(t, script);
    assert(script.take(0) =~= Seq::<(AccumView, Seq<OutputView>)>::empty());
    lemma_rounds_go_on(t, script, 0);
    lemma_rounds_keep_echo(t, script);
    lemma_told_prefix(t, n);
    if 0 <= i < messages.len() {
        assert(told_messages(n).take(messages.len() as int)[i] == told_messages(n)[i]);
    }
}

/// A turn whose round was cancelled, failed or asks for no tools is over, for that reason
/// and in that order; with all its rounds had, it is over for its length. What the model
/// said and thought in the round is the reply.
pub proof fn law_turn_ends_for_a_reason(t: TurnView, a: AccumView, cancelled: bool)
    ensures
        ({
            let n = after_round(t, a, cancelled);
            let over = |reason: Seq<char>|
                n.phase matches PhaseView::Over(e) && e.stop_reason == reason && e.text == a.text
                    && (a.thinking.len() > 0 ==> e.thinking == Some(a.thinking)) && (
                a.thinking.len() == 0 ==> e.thinking is None);
            &&& cancelled ==> over("aborted"@)
            &&& !cancelled && a.failed ==> over("error"@)
            &&& !cancelled && !a.failed && t.rounds >= 8 ==> over("length"@)
            &&& !cancelled && !a.failed && t.rounds < 8 && (a.tool_calls.len() == 0 || a.finish
                != Some("tool_calls"@)) ==> match a.finish {
                Some(reason) => over(reason),
                None => over("stop"@),
            }
        }),
{
}

/// A round that asks for tools is told to the provider as the calls that it asked for, and
/// they are run from the first on; its reasoning goes to the place of that message.
pub proof fn law_tools_are_called(t: TurnView, a: AccumView)
    requires
        t.rounds < 8,
        !a.failed,
        a.finish == Some("tool_calls"@),
        a.tool_calls.len() > 0,
    ensures
        ({
            let n = after_round(t, a, false);
            &&& n.phase == PhaseView::Call(0)
            &&& n.calls == a.tool_calls
            &&& n.rounds == t.rounds + 1
            &&& n.messages.drop_last() == t.messages
            &&& n.messages.last() == (MessageView::AssistantCalls {
                calls: request::told_calls(a.tool_calls),
            })
            &&& n.thoughts.drop_last() == t.thoughts
            &&& n.thoughts.last() == (if a.thinking.len() > 0 {
                Some(a.thinking)
            } else {
                None
            })
        }),
{
    let n = after_round(t, a, false);
    assert(n.messages.drop_last() =~= t.messages);
    assert(n.thoughts.drop_last() =~= t.thoughts);
}

/// A step of a turn changes neither whose it is nor how the provider is asked; one that
/// ends it or fails changes none of its messages either.
pub proof fn law_turn_keeps_its_settings(t: TurnView, a: AccumView, output: OutputView, cancelled: bool)
    ensures
        ({
            let n = after_round(t, a, cancelled);
            let m = after_call(t, output, cancelled);
            &&& n.conversation_id == t.conversation_id && m.conversation_id == t.conversation_id
            &&& n.model == t.model && m.model == t.model
            &&& n.provider == t.provider && m.provider == t.provider
            &&& n.thinking_level == t.thinking_level && m.thinking_level == t.thinking_level
            &&& n.echo == t.echo && m.echo == t.echo
            &&& n.offered == t.offered && m.offered == t.offered
            &&& m.usage == t.usage && m.rounds == t.rounds && m.calls == t.calls
            &&& n.phase is Over ==> n.messages == t.messages && n.thoughts == t.thoughts
                && n.rounds == t.rounds
        }),
{
}

/// The tokens of every round are counted, also of one that was cancelled or that failed:
/// the turn has used those of its rounds together, and the size of its context is that of
/// the last round that counted any.
pub proof fn law_tokens_of_every_round_count(t: TurnView, a: AccumView, u: JsonView, cancelled: bool)
    requires
        sound(t),
        countable(t, a.usage),
        a.usage == Some(u),
    ensures
        ({
            let n = after_round(t, a, cancelled).usage;
            let prompt = usage::count(u, "prompt_tokens"@);
            let completion = usage::count(u, "completion_tokens"@);
            &&& usage::count(n, "prompt_tokens"@) == usage::count(t.usage, "prompt_tokens"@) + prompt
            &&& usage::count(n, "completion_tokens"@) == usage::count(
                t.usage,
                "completion_tokens"@,
            ) + completion
            &&& usage::count(n, "total_tokens"@) == usage::count(t.usage, "total_tokens"@)
                + usage::count(u, "total_tokens"@)
            &&& usage::count(n, "cached_tokens"@) == usage::count(t.usage, "cached_tokens"@)
                + usage::cached_tokens(u)
            &&& usage::count(n, "cache_write_tokens"@) == usage::count(
                t.usage,
                "cache_write_tokens"@,
            ) + usage::cache_write_tokens(u)
            &&& prompt > 0 || completion > 0 ==> usage::count(n, "context_tokens"@) == prompt
                + completion
        }),
{
    usage::law_usage_adds_up(t.usage, u);
    let s = usage::summed(t.usage, u);
    reveal_strlit("prompt_tokens");
    reveal_strlit("completion_tokens");
    reveal_strlit("total_tokens");
    reveal_strlit("cached_tokens");
    reveal_strlit("cache_write_tokens");
    reveal_strlit("context_tokens");
    assert("context_tokens"@.len() == 14);
    usage::law_context_is_of_the_last_round(s, u, "prompt_tokens"@);
    usage::law_context_is_of_the_last_round(s, u, "completion_tokens"@);
    usage::law_context_is_of_the_last_round(s, u, "total_tokens"@);
    usage::law_context_is_of_the_last_round(s, u, "cached_tokens"@);
    usage::law_context_is_of_the_last_round(s, u, "cache_write_tokens"@);
}

/// A round that reports no tokens leaves what was counted.
pub proof fn law_uncounted_round_leaves_the_tokens(t: TurnView, a: AccumView, cancelled: bool)
    requires
        a.usage is None,
    ensures
        after_round(t, a, cancelled).usage == t.usage,
{
}

/// What is stored of a round that asks for tools is what the model said before them, where
/// that is more than blank, and the calls, both as the assistant's, in the turn's
/// conversation and under its model, without tokens or a reason to stop. Of any other
/// round nothing is stored yet.
pub proof fn law_round_is_stored(t: TurnView, a: AccumView, cancelled: bool)
    ensures
        ({
            let rows = rows_of_round(t, a, cancelled);
            let calls = !cancelled && !a.failed && t.rounds < 8 && a.finish == Some("tool_calls"@)
                && a.tool_calls.len() > 0;
            &&& !calls ==> rows.len() == 0
            &&& calls && !text::blank(a.text) ==> rows.len() == 2 && rows[0].content == a.text
            &&& calls && text::blank(a.text) ==> rows.len() == 1
            &&& calls ==> rows.last().content == json::written(request::stored_calls(a.tool_calls))
            &&& forall|i: int| 0 <= i < rows.len() ==> {
                &&& (#[trigger] rows[i]).conversation_id == t.conversation_id
                &&& rows[i].role == "assistant"@
                &&& rows[i].model == Some(t.model) && rows[i].provider == Some(t.provider)
                &&& rows[i].usage is None && rows[i].stop_reason is None
                &&& rows[i].attachments is None && rows[i].thinking_level is None
            }
        }),
{
}

/// What is told and stored of a call is what was called and what came of it: the event and
/// the row of its output name the call, and the provider gets the output under its id.
pub proof fn law_output_goes_to_its_call(t: TurnView, i: int, output: OutputView, cancelled: bool)
    requires
        t.phase == PhaseView::Call(i),
        0 <= i < t.calls.len(),
    ensures
        ({
            let call = t.calls[i];
            let n = after_call(t, output, cancelled);
            let r = result_row(t, call, output);
            &&& n.messages.drop_last() == t.messages
            &&& n.messages.last() == (MessageView::Tool { content: output.content, call_id: call.id })
            &&& n.thoughts.drop_last() == t.thoughts && n.thoughts.last() is None
            &&& cancelled ==> (n.phase matches PhaseView::Over(e) && e.stop_reason == "aborted"@
                && e.text.len() == 0 && e.thinking is None)
            &&& !cancelled && i + 1 < t.calls.len() ==> n.phase == PhaseView::Call(i + 1)
            &&& !cancelled && i + 1 == t.calls.len() ==> n.phase == PhaseView::Ask
            &&& call_event(call) matches EventView::ToolCall { call_id, name, arguments, gated }
                && call_id == call.id && name == call.name && arguments == json::written(
                call.arguments,
            ) && gated == (call.name == "bash"@ || call.name == "read_file"@ || call.name
                == "write_file"@)
            &&& result_event(call, output) matches EventView::ToolResult {
                call_id,
                name,
                ok,
                output: told,
            } && call_id == call.id && name == call.name && ok == !output.is_error && told
                == output.content
            &&& r.role == "tool"@ && r.conversation_id == t.conversation_id && r.model == Some(
                t.model,
            ) && r.provider == Some(t.provider)
            &&& r.content == json::written(request::stored_result(call.id, call.name, output))
            &&& r.thinking is None && r.usage is None && r.stop_reason is None
        }),
{
    let n = after_call(t, output, cancelled);
    assert(n.messages.drop_last() =~= t.messages);
    assert(n.thoughts.drop_last() =~= t.thoughts);
}

/// Each tool is run by the one who can: the web is searched for what was asked, the memory
/// is asked, and anything else is the host's. What the user did not allow is not run.
pub proof fn law_calls_are_dispatched(call: CallView, verdict: Option<bool>)
    ensures
        ({
            let r = action_of(call, verdict);
            let gated = call.name == "bash"@ || call.name == "read_file"@ || call.name
                == "write_file"@;
            &&& gated && verdict == Some(true) ==> r == (ToolActionView::Host {
                action: tools::host_request(call),
            })
            &&& gated && verdict != Some(true) ==> (r matches ToolActionView::Answer { output }
                && output.is_error)
            &&& call.name == "web_search"@ ==> r == (ToolActionView::Search {
                query: json::member_text_or_empty(call.arguments, "query"@),
                count: json::member_u64(call.arguments, "count"@),
            })
            &&& call.name == "save_memory"@ || call.name == "read_memory"@ ==> r
                == ToolActionView::Memory
            &&& !gated && call.name != "web_search"@ && call.name != "save_memory"@ && call.name
                != "read_memory"@ ==> r == (ToolActionView::Host {
                action: tools::host_request(call),
            })
        }),
{
    reveal_strlit("bash");
    reveal_strlit("read_file");
    reveal_strlit("write_file");
    reveal_strlit("web_search");
    reveal_strlit("save_memory");
    reveal_strlit("read_memory");
    assert("bash"@.len() == 4 && "read_file"@.len() == 9 && "write_file"@.len() == 10
        && "web_search"@.len() == 10 && "save_memory"@.len() == 11 && "read_memory"@.len() == 11);
    assert("web_search"@[1] != "write_file"@[1]);
}

/// The reply is stored as the assistant's, in the turn's conversation and under its model,
/// with what the model said and thought, the tokens of the turn and why it ended; where
/// the cost is known it stands beside the tokens, none of which it changes.
pub proof fn law_reply_is_stored(
    t: TurnView,
    e: EndingView,
    cost: JsonView,
    key: Seq<char>,
)
    requires
        sound(t),
    ensures
        ({
            let plain = reply_row(t, e, None);
            let priced = reply_row(t, e, Some(cost));
            &&& plain.role == "assistant"@ && plain.conversation_id == t.conversation_id
            &&& plain.model == Some(t.model) && plain.provider == Some(t.provider)
            &&& plain.content == e.text && plain.thinking == e.thinking
            &&& plain.stop_reason == Some(e.stop_reason)
            &&& plain.usage == Some(json::written(t.usage))
            &&& plain.attachments is None && plain.thinking_level is None
            &&& priced == (NewMessageView { usage: priced.usage, ..plain })
            &&& exists|used: JsonView|
                priced.usage == Some(#[trigger] json::written(used)) && json::member(used, "cost"@)
                    == Some(cost) && (key != "cost"@ ==> json::member(used, key) == json::member(
                    t.usage,
                    key,
                ))
        }),
{
    json::lemma_with_member(t.usage, "cost"@, cost);
    let used = json::with_member(t.usage, "cost"@, cost);
    assert(reply_row(t, e, Some(cost)).usage == Some(json::written(used)));
}

/// A turn is billed where it has counted a prompt or a reply, that is from the first round
/// on that reported its tokens.
pub proof fn law_counted_turns_are_billed(t: TurnView, a: AccumView, cancelled: bool)
    requires
        sound(t),
        countable(t, a.usage),
        a.usage is Some,
    ensures
        billable(after_round(t, a, cancelled)),
        t.usage == json::empty_object() ==> !billable(t),
{
    let u = a.usage->0;
    let s = usage::summed(t.usage, u);
    usage::law_usage_adds_up(t.usage, u);
    reveal_strlit("prompt_tokens");
    reveal_strlit("context_tokens");
    assert("prompt_tokens"@.len() == 13 && "context_tokens"@.len() == 14);
    usage::law_summing_leaves_the_rest(t.usage, u, "context_tokens"@);
    usage::law_context_is_of_the_last_round(s, u, "prompt_tokens"@);
}

/// A turn can be billed just where the tokens of a prompt or those of a reply were counted.
pub proof fn law_either_count_is_billed(t: TurnView, n: JsonView)
    ensures
        json::member(t.usage, "prompt_tokens"@) == Some(n) ==> billable(t),
        json::member(t.usage, "completion_tokens"@) == Some(n) ==> billable(t),
        json::member(t.usage, "prompt_tokens"@) is None && json::member(
            t.usage,
            "completion_tokens"@,
        ) is None ==> !billable(t),
{
}

/// A turn begins with its messages and the tools that can be had, without thoughts, tokens
/// and rounds, by asking.
pub proof fn law_turn_begins_empty(
    conversation_id: Seq<char>,
    model: Seq<char>,
    provider: Seq<char>,
    level: Seq<char>,
    echo: bool,
    messages: Seq<MessageView>,
    web_search: bool,
    key: Seq<char>,
)
    ensures
        ({
            let t = begun(conversation_id, model, provider, level, echo, messages, web_search);
            &&& t.conversation_id == conversation_id && t.model == model
            &&& t.provider == provider && t.thinking_level == level && t.echo == echo
            &&& t.messages == messages
            &&& t.offered == tools::offered(web_search)
            &&& t.phase == PhaseView::Ask && t.rounds == 0 && t.calls.len() == 0
            &&& t.usage is Object && json::member(t.usage, key) is None
            &&& t.thoughts.len() == messages.len()
            &&& forall|i: int| 0 <= i < messages.len() ==> (#[trigger] t.thoughts[i]) is None
        }),
{
}

/// The provider is asked with the turn's model, and with all of its messages, each of them
/// in its place.
pub proof fn law_turn_asks_with_its_messages(t: TurnView)
    requires
        sound(t),
    ensures
        json::member_text(asked(t), "model"@) == Some(t.model),
        json::member_items(asked(t), "messages"@) == Some(told_messages(t)),
        told_messages(t).len() == t.messages.len(),
        !t.echo ==> forall|i: int|
            0 <= i < t.messages.len() ==> #[trigger] told_messages(t)[i]
                == request::message_json(t.messages[i]),
{
    request::law_request_is_complete(t.model, told_messages(t), t.offered, t.thinking_level);
}

/// A turn is begun with the conversation's own prompt, or else with the default one, and
/// under the name by which the model is shown, or else under the model's own.
pub proof fn law_prompt_is_of_the_conversation(s: Setup, config: &AppConfig, memory: &MemoryState)
    ensures
        ({
            let base = |p: Seq<char>, n: Seq<char>|
                setup_prompt(s, config, memory) == request::prompt_of(
                    p,
                    n,
                    config.preferences@,
                    memory@,
                );
            match (s.system_prompt, s.model_name) {
                (Some(p), Some(n)) => base(p@, n@),
                (Some(p), None) => base(p@, config.model@),
                (None, Some(n)) => base(request::DEFAULT_SYSTEM_PROMPT@, n@),
                (None, None) => base(request::DEFAULT_SYSTEM_PROMPT@, config.model@),
            }
        }),
{
}

} // verus!
