//! What is asked of the provider in a round: the messages of the conversation and the
//! tools, as one document.
//!
//! The form of a message is that of `async-openai`, whose types write it.
use async_openai::types::chat::{
    ChatCompletionMessageToolCall, ChatCompletionMessageToolCalls,
    ChatCompletionRequestAssistantMessageArgs, ChatCompletionRequestMessage,
    ChatCompletionRequestMessageContentPartImage, ChatCompletionRequestMessageContentPartText,
    ChatCompletionRequestSystemMessageArgs, ChatCompletionRequestToolMessageArgs,
    ChatCompletionRequestUserMessageArgs, ChatCompletionRequestUserMessageContent,
    ChatCompletionRequestUserMessageContentPart, ChatCompletionTool, ChatCompletionTools,
    FunctionCall, FunctionObject, ImageUrl,
};
use vstd::prelude::*;
use vstd::string::*;

use crate::attachments::{Attachment, AttachmentView};
use crate::db::{MessageRow, RowView};
use crate::json;
use crate::json::{Json, JsonView};
use crate::memory;
use crate::memory::{MemoryState, MemoryView};
use crate::text;
use crate::tools;
use crate::tools::{CallView, OutputView, SpecView, ToolCall, ToolOutput, ToolSpec};

verus! {

// ---------------------------------------------------------------------------
// Messages
// ---------------------------------------------------------------------------

/// A part of what the user says.
pub enum Part {
    Text { text: String },
    Image { url: String },
}

/// A call of a tool as it is told the provider again; the arguments are JSON.
pub struct RequestCall {
    pub id: String,
    pub name: String,
    pub arguments: String,
}

/// A message of the conversation.
pub enum RequestMessage {
    System { content: String },
    User { content: String },
    UserParts { parts: Vec<Part> },
    Assistant { content: String },
    AssistantCalls { calls: Vec<RequestCall> },
    Tool { content: String, call_id: String },
}

/// What a part holds.
#[verifier::ext_equal]
pub enum PartView {
    Text { text: Seq<char> },
    Image { url: Seq<char> },
}

impl View for Part {
    type V = PartView;

    open spec fn view(&self) -> PartView {
        match self {
            Part::Text { text } => PartView::Text { text: text@ },
            Part::Image { url } => PartView::Image { url: url@ },
        }
    }
}

/// What the parts hold.
pub open spec fn part_views(v: Seq<Part>) -> Seq<PartView> {
    Seq::new(v.len(), |i: int| v[i]@)
}

/// What a call holds.
#[verifier::ext_equal]
pub struct RequestCallView {
    pub id: Seq<char>,
    pub name: Seq<char>,
    pub arguments: Seq<char>,
}

impl View for RequestCall {
    type V = RequestCallView;

    open spec fn view(&self) -> RequestCallView {
        RequestCallView { id: self.id@, name: self.name@, arguments: self.arguments@ }
    }
}

/// What the calls hold.
pub open spec fn request_call_views(v: Seq<RequestCall>) -> Seq<RequestCallView> {
    Seq::new(v.len(), |i: int| v[i]@)
}

/// What a message holds.
#[verifier::ext_equal]
pub enum MessageView {
    System { content: Seq<char> },
    User { content: Seq<char> },
    UserParts { parts: Seq<PartView> },
    Assistant { content: Seq<char> },
    AssistantCalls { calls: Seq<RequestCallView> },
    Tool { content: Seq<char>, call_id: Seq<char> },
}

impl View for RequestMessage {
    type V = MessageView;

    open spec fn view(&self) -> MessageView {
        match self {
            RequestMessage::System { content } => MessageView::System { content: content@ },
            RequestMessage::User { content } => MessageView::User { content: content@ },
            RequestMessage::UserParts { parts } => MessageView::UserParts {
                parts: part_views(parts@),
            },
            RequestMessage::Assistant { content } => MessageView::Assistant { content: content@ },
            RequestMessage::AssistantCalls { calls } => MessageView::AssistantCalls {
                calls: request_call_views(calls@),
            },
            RequestMessage::Tool { content, call_id } => MessageView::Tool {
                content: content@,
                call_id: call_id@,
            },
        }
    }
}

/// What the messages hold.
pub open spec fn message_views(v: Seq<RequestMessage>) -> Seq<MessageView> {
    Seq::new(v.len(), |i: int| v[i]@)
}

// ---------------------------------------------------------------------------
// The form of messages
// ---------------------------------------------------------------------------

/// A text as a document.
pub open spec fn txt(s: Seq<char>) -> JsonView {
    JsonView::Text(s)
}

/// A message of a role with its content.
pub open spec fn role_json(role: Seq<char>, content: JsonView) -> JsonView {
    json::with_member(
        json::with_member(json::empty_object(), "role"@, txt(role)),
        "content"@,
        content,
    )
}

/// A part of what the user says, as a document.
pub open spec fn part_json(p: PartView) -> JsonView {
    match p {
        PartView::Text { text } => json::with_member(
            json::with_member(json::empty_object(), "type"@, txt("text"@)),
            "text"@,
            txt(text),
        ),
        PartView::Image { url } => json::with_member(
            json::with_member(json::empty_object(), "type"@, txt("image_url"@)),
            "image_url"@,
            json::with_member(json::empty_object(), "url"@, txt(url)),
        ),
    }
}

/// A call of a tool, as a document.
pub open spec fn request_call_json(c: RequestCallView) -> JsonView {
    json::with_member(
        json::with_member(
            json::with_member(json::empty_object(), "type"@, txt("function"@)),
            "id"@,
            txt(c.id),
        ),
        "function"@,
        json::with_member(
            json::with_member(json::empty_object(), "name"@, txt(c.name)),
            "arguments"@,
            txt(c.arguments),
        ),
    )
}

/// A message, as a document.
pub open spec fn message_json(m: MessageView) -> JsonView {
    match m {
        MessageView::System { content } => role_json("system"@, txt(content)),
        MessageView::User { content } => role_json("user"@, txt(content)),
        MessageView::UserParts { parts } => role_json(
            "user"@,
            JsonView::Array(Seq::new(parts.len(), |i: int| part_json(parts[i]))),
        ),
        MessageView::Assistant { content } => role_json("assistant"@, txt(content)),
        MessageView::AssistantCalls { calls } => json::with_member(
            json::with_member(json::empty_object(), "role"@, txt("assistant"@)),
            "tool_calls"@,
            JsonView::Array(Seq::new(calls.len(), |i: int| request_call_json(calls[i]))),
        ),
        MessageView::Tool { content, call_id } => json::with_member(
            role_json("tool"@, txt(content)),
            "tool_call_id"@,
            txt(call_id),
        ),
    }
}

/// The offer of a tool, as a document.
pub open spec fn tool_json(t: SpecView) -> JsonView {
    json::with_member(
        json::with_member(json::empty_object(), "type"@, txt("function"@)),
        "function"@,
        json::with_member(
            json::with_member(
                json::with_member(json::empty_object(), "name"@, txt(t.name)),
                "description"@,
                txt(t.description),
            ),
            "parameters"@,
            json::canonical(t.parameters),
        ),
    )
}

// ---------------------------------------------------------------------------
// async-openai
// ---------------------------------------------------------------------------

/// `serde_json::to_value` of the message that `ChatCompletionRequestSystemMessageArgs`
/// builds from a text: every field has a default, so that it is always built, and what
/// is not set is not written.
#[verifier::external_body]
fn system_value(content: String) -> (r: Option<serde_json::Value>)
    ensures
        r is Some && json::value_view(r->0) == message_json(
            MessageView::System { content: content@ },
        ),
{
    let m = ChatCompletionRequestSystemMessageArgs::default().content(content).build().ok()?;
    serde_json::to_value(ChatCompletionRequestMessage::from(m)).ok()
}

/// `serde_json::to_value` of the message that `ChatCompletionRequestUserMessageArgs`
/// builds from a text: every field has a default, so that it is always built, and what
/// is not set is not written.
#[verifier::external_body]
fn user_value(content: String) -> (r: Option<serde_json::Value>)
    ensures
        r is Some && json::value_view(r->0) == message_json(
            MessageView::User { content: content@ },
        ),
{
    let m = ChatCompletionRequestUserMessageArgs::default().content(content).build().ok()?;
    serde_json::to_value(ChatCompletionRequestMessage::from(m)).ok()
}

/// `serde_json::to_value` of the message that `ChatCompletionRequestUserMessageArgs`
/// builds from parts: every field has a default, so that it is always built, and what is
/// not set is not written, in the parts neither.
#[verifier::external_body]
fn user_parts_value(parts: Vec<Part>) -> (r: Option<serde_json::Value>)
    ensures
        r is Some && json::value_view(r->0) == message_json(
            MessageView::UserParts { parts: part_views(parts@) },
        ),
{
    let parts = parts.into_iter().map(|p| match p {
        Part::Text { text } => ChatCompletionRequestUserMessageContentPart::Text(
            ChatCompletionRequestMessageContentPartText { text, ..Default::default() }),
        Part::Image { url } => ChatCompletionRequestUserMessageContentPart::ImageUrl(
            ChatCompletionRequestMessageContentPartImage {
                image_url: ImageUrl { url, detail: None }, ..Default::default() }),
    }).collect();
    let content = ChatCompletionRequestUserMessageContent::Array(parts);
    let m = ChatCompletionRequestUserMessageArgs::default().content(content).build().ok()?;
    serde_json::to_value(ChatCompletionRequestMessage::from(m)).ok()
}

/// `serde_json::to_value` of the message that `ChatCompletionRequestAssistantMessageArgs`
/// builds from a text: every field has a default, so that it is always built, and what
/// is not set is not written.
#[verifier::external_body]
fn assistant_value(content: String) -> (r: Option<serde_json::Value>)
    ensures
        r is Some && json::value_view(r->0) == message_json(
            MessageView::Assistant { content: content@ },
        ),
{
    let m = ChatCompletionRequestAssistantMessageArgs::default().content(content).build().ok()?;
    serde_json::to_value(ChatCompletionRequestMessage::from(m)).ok()
}

/// `serde_json::to_value` of the message that `ChatCompletionRequestAssistantMessageArgs`
/// builds from calls of tools: every field has a default, so that it is always built, and
/// what is not set is not written.
#[verifier::external_body]
fn assistant_calls_value(calls: Vec<RequestCall>) -> (r: Option<serde_json::Value>)
    ensures
        r is Some && json::value_view(r->0) == message_json(
            MessageView::AssistantCalls { calls: request_call_views(calls@) },
        ),
{
    let calls: Vec<ChatCompletionMessageToolCalls> = calls.into_iter().map(|c| {
        ChatCompletionMessageToolCalls::Function(ChatCompletionMessageToolCall {
            id: c.id,
            function: FunctionCall { name: c.name, arguments: c.arguments },
        })
    }).collect();
    let m = ChatCompletionRequestAssistantMessageArgs::default().tool_calls(calls).build().ok()?;
    serde_json::to_value(ChatCompletionRequestMessage::from(m)).ok()
}

/// `serde_json::to_value` of the message that `ChatCompletionRequestToolMessageArgs`
/// builds from the output of a tool and the id of its call: every field has a default, so
/// that it is always built.
#[verifier::external_body]
fn tool_message_value(content: String, call_id: String) -> (r: Option<serde_json::Value>)
    ensures
        r is Some && json::value_view(r->0) == message_json(
            MessageView::Tool { content: content@, call_id: call_id@ },
        ),
{
    let m = ChatCompletionRequestToolMessageArgs::default()
        .content(content)
        .tool_call_id(call_id)
        .build()
        .ok()?;
    serde_json::to_value(ChatCompletionRequestMessage::from(m)).ok()
}

/// `serde_json::to_value` of a `ChatCompletionTools` with a function: its name, its
/// description and its parameters are written.
#[verifier::external_body]
fn tool_value(name: String, description: String, parameters: serde_json::Value) -> (r: Option<
    serde_json::Value,
>)
    ensures
        r is Some && json::value_view(r->0) == json::with_member(
            json::with_member(json::empty_object(), "type"@, txt("function"@)),
            "function"@,
            json::with_member(
                json::with_member(
                    json::with_member(json::empty_object(), "name"@, txt(name@)),
                    "description"@,
                    txt(description@),
                ),
                "parameters"@,
                json::value_view(parameters),
            ),
        ),
{
    let function = FunctionObject {
        name,
        description: Some(description),
        parameters: Some(parameters),
        strict: None,
    };
    serde_json::to_value(ChatCompletionTools::Function(ChatCompletionTool { function })).ok()
}

/// A message, as a document.
pub fn message_document(m: &RequestMessage) -> (r: Json)
    ensures
        r@ == message_json(m@),
{
    let v = match m {
        RequestMessage::System { content } => system_value(content.clone()),
        RequestMessage::User { content } => user_value(content.clone()),
        RequestMessage::UserParts { parts } => user_parts_value(copy_parts(parts)),
        RequestMessage::Assistant { content } => assistant_value(content.clone()),
        RequestMessage::AssistantCalls { calls } => assistant_calls_value(copy_calls(calls)),
        RequestMessage::Tool { content, call_id } => tool_message_value(
            content.clone(),
            call_id.clone(),
        ),
    };
    json::from_value(v.unwrap())
}

/// The offer of a tool, as a document.
pub fn tool_document(t: &ToolSpec) -> (r: Json)
    ensures
        r@ == tool_json(t@),
{
    let v = tool_value(t.name.clone(), t.description.clone(), json::to_value(&t.parameters));
    json::from_value(v.unwrap())
}

/// A copy of parts.
fn copy_parts(v: &Vec<Part>) -> (r: Vec<Part>)
    ensures
        part_views(r@) == part_views(v@),
{
    let mut out: Vec<Part> = Vec::new();
    let mut i: usize = 0;
    while i < v.len()
        invariant
            i <= v@.len(),
            out@.len() == i,
            forall|k: int| 0 <= k < i ==> (#[trigger] out@[k])@ == v@[k]@,
        decreases v@.len() - i,
    {
        out.push(
            match &v[i] {
                Part::Text { text } => Part::Text { text: text.clone() },
                Part::Image { url } => Part::Image { url: url.clone() },
            },
        );
        i += 1;
    }
    assert(part_views(out@) =~= part_views(v@));
    out
}

/// A copy of calls.
fn copy_calls(v: &Vec<RequestCall>) -> (r: Vec<RequestCall>)
    ensures
        request_call_views(r@) == request_call_views(v@),
{
    let mut out: Vec<RequestCall> = Vec::new();
    let mut i: usize = 0;
    while i < v.len()
        invariant
            i <= v@.len(),
            out@.len() == i,
            forall|k: int| 0 <= k < i ==> (#[trigger] out@[k])@ == v@[k]@,
        decreases v@.len() - i,
    {
        out.push(
            RequestCall {
                id: v[i].id.clone(),
                name: v[i].name.clone(),
                arguments: v[i].arguments.clone(),
            },
        );
        i += 1;
    }
    assert(request_call_views(out@) =~= request_call_views(v@));
    out
}

// ---------------------------------------------------------------------------
// The request
// ---------------------------------------------------------------------------

/// The index of the last message with calls of tools.
pub open spec fn last_calls(ms: Seq<MessageView>) -> Option<int>
    decreases ms.len(),
{
    if ms.len() == 0 {
        None
    } else if ms.last() is AssistantCalls {
        Some(ms.len() - 1)
    } else {
        last_calls(ms.drop_last())
    }
}

/// The messages as documents. The reasoning, if there is any, goes with the last message
/// that has calls of tools.
pub open spec fn messages_json(ms: Seq<MessageView>, reasoning: Option<Seq<char>>) -> Seq<
    JsonView,
> {
    Seq::new(
        ms.len(),
        |i: int|
            match reasoning {
                Some(t) => if last_calls(ms) == Some(i) && !text::blank(t) {
                    json::with_member(message_json(ms[i]), "reasoning_content"@, txt(t))
                } else {
                    message_json(ms[i])
                },
                None => message_json(ms[i]),
            },
    )
}

/// A message with what the model thought when it made it, unless that is blank.
pub open spec fn told_message(m: MessageView, thought: Option<Seq<char>>) -> JsonView {
    match thought {
        Some(t) => if text::blank(t) {
            message_json(m)
        } else {
            json::with_member(message_json(m), "reasoning_content"@, txt(t))
        },
        None => message_json(m),
    }
}

/// The thought that goes with a message, if there is one.
pub open spec fn thought_at(thoughts: Seq<Option<Seq<char>>>, i: int) -> Option<Seq<char>> {
    if 0 <= i < thoughts.len() {
        thoughts[i]
    } else {
        None
    }
}

/// The messages as documents, each with the thought at its place.
pub open spec fn told(ms: Seq<MessageView>, thoughts: Seq<Option<Seq<char>>>) -> Seq<JsonView> {
    Seq::new(ms.len(), |i: int| told_message(ms[i], thought_at(thoughts, i)))
}

/// What thoughts hold.
pub open spec fn thought_views(v: Seq<Option<String>>) -> Seq<Option<Seq<char>>> {
    Seq::new(v.len(), |i: int| text::opt_text(v[i]))
}

/// What is asked of the provider, given the messages as documents.
pub open spec fn body_with(
    model: Seq<char>,
    documents: Seq<JsonView>,
    offered: Seq<SpecView>,
    thinking_level: Seq<char>,
) -> JsonView {
    let level = text::trimmed(thinking_level);
    let asked = json::with_member(
        json::with_member(
            json::with_member(
                json::with_member(
                    json::with_member(json::empty_object(), "model"@, txt(model)),
                    "messages"@,
                    JsonView::Array(documents),
                ),
                "stream"@,
                JsonView::Bool(true),
            ),
            "stream_options"@,
            json::with_member(json::empty_object(), "include_usage"@, JsonView::Bool(true)),
        ),
        "tools"@,
        JsonView::Array(Seq::new(offered.len(), |i: int| tool_json(offered[i]))),
    );
    if level.len() == 0 || level == "default"@ {
        asked
    } else {
        json::with_member(asked, "reasoning_effort"@, txt(level))
    }
}

/// What is asked of the provider in a round, where the reasoning of the last calls is
/// known.
pub open spec fn body_json(
    model: Seq<char>,
    ms: Seq<MessageView>,
    offered: Seq<SpecView>,
    thinking_level: Seq<char>,
    reasoning: Option<Seq<char>>,
) -> JsonView {
    body_with(model, messages_json(ms, reasoning), offered, thinking_level)
}

/// The index of the last message with calls of tools.
fn find_last_calls(messages: &Vec<RequestMessage>) -> (r: Option<usize>)
    ensures
        match r {
            Some(i) => last_calls(message_views(messages@)) == Some(i as int) && i
                < messages@.len(),
            None => last_calls(message_views(messages@)) is None,
        },
{
    let ghost ms = message_views(messages@);
    let mut i: usize = messages.len();
    assert(ms.take(ms.len() as int) =~= ms);
    while i > 0
        invariant
            i <= messages@.len(),
            ms == message_views(messages@),
            last_calls(ms) == last_calls(ms.take(i as int)),
        decreases i,
    {
        assert(ms.take(i as int).last() == messages@[i - 1]@);
        assert(ms.take(i as int).drop_last() =~= ms.take(i - 1));
        match &messages[i - 1] {
            RequestMessage::AssistantCalls { .. } => {
                return Some(i - 1);
            },
            _ => {},
        }
        i -= 1;
    }
    None
}

/// The messages as documents.
fn message_documents(messages: &Vec<RequestMessage>, reasoning: Option<&str>) -> (r: Vec<Json>)
    ensures
        json::views(r@) == messages_json(message_views(messages@), text::opt_str(reasoning)),
{
    let ghost ms = message_views(messages@);
    let last = find_last_calls(messages);
    let mut out: Vec<Json> = Vec::new();
    let mut i: usize = 0;
    while i < messages.len()
        invariant
            i <= messages@.len(),
            ms == message_views(messages@),
            match last {
                Some(k) => last_calls(ms) == Some(k as int),
                None => last_calls(ms) is None,
            },
            out@.len() == i,
            forall|k: int|
                0 <= k < i ==> (#[trigger] out@[k])@ == messages_json(
                    ms,
                    text::opt_str(reasoning),
                )[k],
        decreases messages@.len() - i,
    {
        let mut document = message_document(&messages[i]);
        let here = match last {
            Some(k) => k == i,
            None => false,
        };
        if here {
            if let Some(t) = reasoning {
                if !text::is_blank(t) {
                    document = document.with("reasoning_content", Json::text(t));
                }
            }
        }
        out.push(document);
        i += 1;
    }
    assert(json::views(out@) =~= messages_json(ms, text::opt_str(reasoning)));
    out
}

/// The messages as documents, each with the thought at its place.
fn told_documents(messages: &Vec<RequestMessage>, thoughts: &Vec<Option<String>>) -> (r: Vec<Json>)
    ensures
        json::views(r@) == told(message_views(messages@), thought_views(thoughts@)),
{
    let ghost ms = message_views(messages@);
    let ghost ts = thought_views(thoughts@);
    let mut out: Vec<Json> = Vec::new();
    let mut i: usize = 0;
    while i < messages.len()
        invariant
            i <= messages@.len(),
            ms == message_views(messages@),
            ts == thought_views(thoughts@),
            out@.len() == i,
            forall|k: int| 0 <= k < i ==> (#[trigger] out@[k])@ == told(ms, ts)[k],
        decreases messages@.len() - i,
    {
        let mut document = message_document(&messages[i]);
        if i < thoughts.len() {
            if let Some(t) = &thoughts[i] {
                if !text::is_blank(t.as_str()) {
                    document = document.with("reasoning_content", Json::text(t.as_str()));
                }
            }
        }
        out.push(document);
        i += 1;
    }
    assert(json::views(out@) =~= told(ms, ts));
    out
}

/// What is asked of the provider, given the messages as documents.
fn make_body(
    model: &str,
    documents: Vec<Json>,
    offered: &Vec<ToolSpec>,
    thinking_level: &str,
) -> (r: Json)
    ensures
        r@ == body_with(
            model@,
            json::views(documents@),
            tools::spec_views(offered@),
            thinking_level@,
        ),
{
    let ghost specs = tools::spec_views(offered@);
    let mut offers: Vec<Json> = Vec::new();
    let mut i: usize = 0;
    while i < offered.len()
        invariant
            i <= offered@.len(),
            specs == tools::spec_views(offered@),
            offers@.len() == i,
            forall|k: int| 0 <= k < i ==> (#[trigger] offers@[k])@ == tool_json(specs[k]),
        decreases offered@.len() - i,
    {
        offers.push(tool_document(&offered[i]));
        i += 1;
    }
    assert(json::views(offers@) =~= Seq::new(specs.len(), |i: int| tool_json(specs[i])));
    let asked = Json::empty().with("model", Json::text(model)).with(
        "messages",
        Json::array(documents),
    ).with("stream", Json::truth(true)).with(
        "stream_options",
        Json::empty().with("include_usage", Json::truth(true)),
    ).with("tools", Json::array(offers));
    let level = text::trim(thinking_level);
    if level.as_str().is_empty() || text::same(level.as_str(), "default") {
        asked
    } else {
        asked.with("reasoning_effort", Json::text(level.as_str()))
    }
}

/// What is asked of the provider in a round. `reasoning` is what the model thought before
/// its last calls of tools, in this turn.
pub fn completion_body(
    model: &str,
    messages: &Vec<RequestMessage>,
    offered: &Vec<ToolSpec>,
    thinking_level: &str,
    reasoning: Option<&str>,
) -> (r: Json)
    ensures
        r@ == body_json(
            model@,
            message_views(messages@),
            tools::spec_views(offered@),
            thinking_level@,
            text::opt_str(reasoning),
        ),
{
    make_body(model, message_documents(messages, reasoning), offered, thinking_level)
}

/// What is asked of the provider in a round. `thoughts` holds, at the place of each
/// message, what the model thought when it made it, where that is to be sent along.
pub fn completion_body_with_thoughts(
    model: &str,
    messages: &Vec<RequestMessage>,
    thoughts: &Vec<Option<String>>,
    offered: &Vec<ToolSpec>,
    thinking_level: &str,
) -> (r: Json)
    ensures
        r@ == body_with(
            model@,
            told(message_views(messages@), thought_views(thoughts@)),
            tools::spec_views(offered@),
            thinking_level@,
        ),
{
    make_body(model, told_documents(messages, thoughts), offered, thinking_level)
}

/// The address at which a completion is asked for.
pub fn completions_url(base_url: &str) -> (r: String)
    ensures
        r@ == text::drop_trailing(base_url@, |c: char| c == '/') + "/chat/completions"@,
{
    let mut url = text::trim_end_char(base_url, '/');
    url.append("/chat/completions");
    url
}

// ---------------------------------------------------------------------------
// What is stored of calls
// ---------------------------------------------------------------------------

/// A call as it is stored.
pub open spec fn stored_call(c: CallView) -> JsonView {
    json::with_member(
        json::with_member(
            json::with_member(json::empty_object(), "id"@, txt(c.id)),
            "name"@,
            txt(c.name),
        ),
        "arguments"@,
        c.arguments,
    )
}

/// Calls as they are stored.
pub open spec fn stored_calls(calls: Seq<CallView>) -> JsonView {
    json::with_member(
        json::empty_object(),
        "tool_calls"@,
        JsonView::Array(Seq::new(calls.len(), |i: int| stored_call(calls[i]))),
    )
}

/// The output of a call as it is stored.
pub open spec fn stored_result(call_id: Seq<char>, name: Seq<char>, output: OutputView) -> JsonView {
    json::with_member(
        json::with_member(
            json::with_member(
                json::with_member(json::empty_object(), "tool_call_id"@, txt(call_id)),
                "name"@,
                txt(name),
            ),
            "error"@,
            JsonView::Bool(output.is_error),
        ),
        "output"@,
        txt(output.content),
    )
}

/// The text that is stored for calls. Reading it gives the calls again, where it can be
/// read at all: a double may come back as another one, and JSON that nests too deep is
/// not read.
pub fn encode_tool_calls(calls: &Vec<ToolCall>) -> (r: String)
    ensures
        r@ == json::written(stored_calls(tools::call_views(calls@))),
        json::durable(stored_calls(tools::call_views(calls@))) ==> json::json_parse(r@) == Some(
            stored_calls(tools::call_views(calls@)),
        ),
{
    let ghost c = tools::call_views(calls@);
    let mut items: Vec<Json> = Vec::new();
    let mut i: usize = 0;
    while i < calls.len()
        invariant
            i <= calls@.len(),
            c == tools::call_views(calls@),
            items@.len() == i,
            forall|k: int| 0 <= k < i ==> (#[trigger] items@[k])@ == stored_call(c[k]),
        decreases calls@.len() - i,
    {
        items.push(
            Json::empty().with("id", Json::text(calls[i].id.as_str())).with(
                "name",
                Json::text(calls[i].name.as_str()),
            ).with("arguments", calls[i].arguments.duplicate()),
        );
        i += 1;
    }
    assert(json::views(items@) =~= Seq::new(c.len(), |i: int| stored_call(c[i])));
    json::to_text(&Json::empty().with("tool_calls", Json::array(items)))
}

/// The text that is stored for the output of a call. Reading it gives the output again.
pub fn encode_tool_result(call_id: &str, name: &str, output: &ToolOutput) -> (r: String)
    ensures
        r@ == json::written(stored_result(call_id@, name@, output@)),
        json::json_parse(r@) == Some(stored_result(call_id@, name@, output@)),
{
    let document = Json::empty().with("tool_call_id", Json::text(call_id)).with(
        "name",
        Json::text(name),
    ).with("error", Json::truth(output.is_error)).with("output", Json::text(output.content.as_str()));
    proof {
        lemma_result_durable(call_id@, name@, output@);
    }
    json::to_text(&document)
}

/// What is put into a document that can be read again can be, too.
proof fn lemma_durable_with(v: JsonView, key: Seq<char>, value: JsonView, depth: nat)
    requires
        v is Object,
        json::orderly(v),
        json::orderly(value),
        depth > 0,
        json::exact_within(v, depth),
        json::exact_within(value, (depth - 1) as nat),
    ensures
        json::orderly(json::with_member(v, key, value)),
        json::exact_within(json::with_member(v, key, value), depth),
{
    if let JsonView::Object(fields) = v {
        let after = crate::keyed::put(fields, key, value);
        crate::keyed::lemma_put(fields, key, value);
        crate::keyed::lemma_place(fields, key);
        let p = crate::keyed::place(fields, key) as int;
        let replaced = p < fields.len() && fields[p].0 == key;
        assert forall|i: int| 0 <= i < after.len() implies json::orderly((#[trigger] after[i]).1)
            && json::exact_within(after[i].1, (depth - 1) as nat) by {
            if i != p {
                let k = if replaced || i < p {
                    i
                } else {
                    i - 1
                };
                assert(after[i] == fields[k]);
            }
        }
    }
}

/// An empty object can be read again.
proof fn lemma_durable_empty(depth: nat)
    requires
        depth > 0,
    ensures
        json::orderly(json::empty_object()),
        json::exact_within(json::empty_object(), depth),
{
}

/// The output of a call can be read again.
proof fn lemma_result_durable(call_id: Seq<char>, name: Seq<char>, output: OutputView)
    ensures
        json::durable(stored_result(call_id, name, output)),
{
    let e = json::empty_object();
    let r1 = json::with_member(e, "tool_call_id"@, txt(call_id));
    let r2 = json::with_member(r1, "name"@, txt(name));
    let r3 = json::with_member(r2, "error"@, JsonView::Bool(output.is_error));
    lemma_durable_empty(json::depth_limit());
    lemma_durable_with(e, "tool_call_id"@, txt(call_id), json::depth_limit());
    lemma_durable_with(r1, "name"@, txt(name), json::depth_limit());
    lemma_durable_with(r2, "error"@, JsonView::Bool(output.is_error), json::depth_limit());
    lemma_durable_with(r3, "output"@, txt(output.content), json::depth_limit());
}

/// Calls can be read again where their arguments can: they hold no double and nest three
/// levels less than a document may.
pub proof fn law_calls_can_be_read_again(calls: Seq<CallView>)
    requires
        forall|i: int|
            0 <= i < calls.len() ==> json::orderly((#[trigger] calls[i]).arguments)
                && json::exact_within(calls[i].arguments, (json::depth_limit() - 3) as nat),
    ensures
        json::durable(stored_calls(calls)),
{
    let limit = json::depth_limit();
    let e = json::empty_object();
    let items = Seq::new(calls.len(), |i: int| stored_call(calls[i]));
    lemma_durable_empty(limit);
    lemma_durable_empty((limit - 2) as nat);
    assert forall|i: int| 0 <= i < items.len() implies json::orderly(#[trigger] items[i])
        && json::exact_within(items[i], (limit - 2) as nat) by {
        let c = calls[i];
        let c1 = json::with_member(e, "id"@, txt(c.id));
        let c2 = json::with_member(c1, "name"@, txt(c.name));
        lemma_durable_with(e, "id"@, txt(c.id), (limit - 2) as nat);
        lemma_durable_with(c1, "name"@, txt(c.name), (limit - 2) as nat);
        lemma_durable_with(c2, "arguments"@, c.arguments, (limit - 2) as nat);
    }
    lemma_durable_with(e, "tool_calls"@, JsonView::Array(items), limit);
}

/// Calls as they are told the provider.
pub open spec fn told_calls(calls: Seq<CallView>) -> Seq<RequestCallView> {
    Seq::new(
        calls.len(),
        |i: int|
            RequestCallView {
                id: calls[i].id,
                name: calls[i].name,
                arguments: json::written(calls[i].arguments),
            },
    )
}

/// Calls as they are told the provider.
pub fn request_calls(calls: &Vec<ToolCall>) -> (r: Vec<RequestCall>)
    ensures
        request_call_views(r@) == told_calls(tools::call_views(calls@)),
{
    let ghost c = tools::call_views(calls@);
    let mut out: Vec<RequestCall> = Vec::new();
    let mut i: usize = 0;
    while i < calls.len()
        invariant
            i <= calls@.len(),
            c == tools::call_views(calls@),
            out@.len() == i,
            forall|k: int| 0 <= k < i ==> (#[trigger] out@[k])@ == told_calls(c)[k],
        decreases calls@.len() - i,
    {
        out.push(
            RequestCall {
                id: calls[i].id.clone(),
                name: calls[i].name.clone(),
                arguments: json::to_text(&calls[i].arguments),
            },
        );
        i += 1;
    }
    assert(request_call_views(out@) =~= told_calls(c));
    out
}

// ---------------------------------------------------------------------------
// History
// ---------------------------------------------------------------------------

/// A call that was stored, as it is told the provider. What is missing counts as empty.
pub open spec fn call_again(v: JsonView) -> RequestCallView {
    RequestCallView {
        id: json::member_text_or_empty(v, "id"@),
        name: json::member_text_or_empty(v, "name"@),
        arguments: match json::member(v, "arguments"@) {
            Some(a) => json::written(a),
            None => "{}"@,
        },
    }
}

/// What was said by the model, as it is told the provider: calls where they are stored,
/// else the text.
pub open spec fn assistant_again(content: Seq<char>, parsed: Option<JsonView>) -> MessageView {
    match parsed {
        Some(v) => match json::member_items(v, "tool_calls"@) {
            Some(calls) => MessageView::AssistantCalls {
                calls: Seq::new(calls.len(), |i: int| call_again(calls[i])),
            },
            None => MessageView::Assistant { content },
        },
        None => MessageView::Assistant { content },
    }
}

/// What a tool gave, as it is told the provider. A row that is no stored output is passed
/// on as it is.
pub open spec fn tool_again(content: Seq<char>, parsed: Option<JsonView>) -> MessageView {
    match parsed {
        Some(v) => match (json::member_text(v, "tool_call_id"@), json::member_text(v, "output"@)) {
            (Some(call_id), Some(output)) => MessageView::Tool { content: output, call_id },
            _ => MessageView::Tool { content, call_id: "unknown"@ },
        },
        None => MessageView::Tool { content, call_id: "unknown"@ },
    }
}

/// The text of a message of the user, with the text files that go with it.
pub open spec fn folded(content: Seq<char>, attached: Seq<AttachmentView>) -> Seq<char>
    decreases attached.len(),
{
    if attached.len() == 0 {
        content
    } else {
        let before = folded(content, attached.drop_last());
        let a = attached.last();
        match a.text {
            Some(t) => if text::blank(t) {
                before
            } else if text::blank(before) {
                before + ("--- File: "@ + a.name + " ---\n"@ + t)
            } else {
                before + "\n\n"@ + ("--- File: "@ + a.name + " ---\n"@ + t)
            },
            None => before,
        }
    }
}

/// The images that go with a message of the user.
pub open spec fn images(attached: Seq<AttachmentView>) -> Seq<Seq<char>>
    decreases attached.len(),
{
    if attached.len() == 0 {
        Seq::empty()
    } else {
        let before = images(attached.drop_last());
        let a = attached.last();
        match a.data_url {
            Some(url) => if a.kind == "image"@ {
                before.push(url)
            } else {
                before
            },
            None => before,
        }
    }
}

/// A message of the user: its text with the text files, and, where images go with it,
/// parts.
pub open spec fn user_message(content: Seq<char>, attached: Seq<AttachmentView>) -> MessageView {
    let combined = folded(content, attached);
    let urls = images(attached);
    let shown = Seq::new(urls.len(), |i: int| PartView::Image { url: urls[i] });
    if urls.len() == 0 {
        MessageView::User { content: combined }
    } else if text::blank(combined) {
        MessageView::UserParts { parts: shown }
    } else {
        MessageView::UserParts { parts: seq![PartView::Text { text: combined }] + shown }
    }
}

/// A row of the history as it is told the provider. Other roles are passed over.
pub open spec fn row_again(row: RowView, attached: Seq<AttachmentView>) -> Option<MessageView> {
    let content = row.message.content;
    if row.message.role == "user"@ {
        Some(user_message(content, attached))
    } else if row.message.role == "assistant"@ {
        Some(assistant_again(content, json::json_parse(content)))
    } else if row.message.role == "tool"@ {
        Some(tool_again(content, json::json_parse(content)))
    } else {
        None
    }
}

/// What was attached to a row: what the caller has read of it, or nothing.
pub open spec fn attached_to(all: Seq<Seq<AttachmentView>>, i: int) -> Seq<AttachmentView> {
    if 0 <= i < all.len() {
        all[i]
    } else {
        Seq::empty()
    }
}

/// The history as it is told the provider.
pub open spec fn history_again(rows: Seq<RowView>, attached: Seq<Seq<AttachmentView>>) -> Seq<
    MessageView,
>
    decreases rows.len(),
{
    if rows.len() == 0 {
        Seq::empty()
    } else {
        let before = history_again(rows.drop_last(), attached);
        match row_again(rows.last(), attached_to(attached, rows.len() - 1)) {
            Some(m) => before.push(m),
            None => before,
        }
    }
}

/// The messages of a conversation: the prompt, unless it is blank, the history, and what
/// the user says now.
pub open spec fn conversation(
    system_prompt: Seq<char>,
    rows: Seq<RowView>,
    attached: Seq<Seq<AttachmentView>>,
    content: Seq<char>,
    now_attached: Seq<AttachmentView>,
) -> Seq<MessageView> {
    let prompt = if text::blank(system_prompt) {
        Seq::empty()
    } else {
        seq![MessageView::System { content: system_prompt }]
    };
    prompt + history_again(rows, attached) + seq![user_message(content, now_attached)]
}

/// A message of the user.
pub fn user_request_message(content: &str, attached: &Vec<Attachment>) -> (r: RequestMessage)
    ensures
        r@ == user_message(content@, crate::attachments::views(attached@)),
{
    let ghost a = crate::attachments::views(attached@);
    let mut combined = content.to_owned();
    let mut urls: Vec<String> = Vec::new();
    let mut i: usize = 0;
    assert(a.take(0) =~= Seq::<AttachmentView>::empty());
    assert(text::texts(urls@) =~= images(a.take(0)));
    while i < attached.len()
        invariant
            i <= attached@.len(),
            a == crate::attachments::views(attached@),
            combined@ == folded(content@, a.take(i as int)),
            text::texts(urls@) == images(a.take(i as int)),
        decreases attached@.len() - i,
    {
        assert(a.take(i + 1).drop_last() =~= a.take(i as int));
        assert(a.take(i + 1).last() == attached@[i as int]@);
        let item = &attached[i];
        if let Some(t) = &item.text {
            if !text::is_blank(t.as_str()) {
                if !text::is_blank(combined.as_str()) {
                    combined.append("\n\n");
                }
                let mut file = "--- File: ".to_owned();
                file.append(item.name.as_str());
                file.append(" ---\n");
                file.append(t.as_str());
                combined.append(file.as_str());
            }
        }
        if text::same(item.kind.as_str(), "image") {
            if let Some(url) = &item.data_url {
                let url = url.clone();
                proof {
                    text::lemma_texts_push(urls@, url);
                }
                urls.push(url);
            }
        }
        i += 1;
    }
    assert(a.take(i as int) =~= a);
    if urls.len() == 0 {
        return RequestMessage::User { content: combined };
    }
    let ghost u = text::texts(urls@);
    let mut parts: Vec<Part> = Vec::new();
    let ghost mut head: Seq<PartView> = Seq::empty();
    if !text::is_blank(combined.as_str()) {
        proof {
            head = seq![PartView::Text { text: combined@ }];
        }
        parts.push(Part::Text { text: combined });
    }
    assert(part_views(parts@) =~= head);
    let mut k: usize = 0;
    while k < urls.len()
        invariant
            k <= urls@.len(),
            u == text::texts(urls@),
            part_views(parts@) == head + Seq::new(k as nat, |j: int| PartView::Image { url: u[j] }),
        decreases urls@.len() - k,
    {
        let ghost before = part_views(parts@);
        let part = Part::Image { url: urls[k].clone() };
        parts.push(part);
        assert(part_views(parts@) =~= before.push(part@));
        k += 1;
        assert(part_views(parts@) =~= head + Seq::new(
            k as nat,
            |j: int| PartView::Image { url: u[j] },
        ));
    }
    assert(part_views(parts@) =~= (if text::blank(combined@) {
        Seq::new(u.len(), |j: int| PartView::Image { url: u[j] })
    } else {
        seq![PartView::Text { text: combined@ }] + Seq::new(
            u.len(),
            |j: int| PartView::Image { url: u[j] },
        )
    }));
    RequestMessage::UserParts { parts }
}

/// What was said by the model, as it is told the provider; `parsed` is what the row holds
/// as JSON.
pub fn replay_assistant(content: &str, parsed: &Option<Json>) -> (r: RequestMessage)
    ensures
        r@ == assistant_again(content@, json::opt_view(*parsed)),
{
    if let Some(v) = parsed {
        if let Some(stored) = v.get_array("tool_calls") {
            let ghost s = json::views(stored@);
            let mut calls: Vec<RequestCall> = Vec::new();
            let mut i: usize = 0;
            while i < stored.len()
                invariant
                    i <= stored@.len(),
                    s == json::views(stored@),
                    calls@.len() == i,
                    forall|k: int| 0 <= k < i ==> (#[trigger] calls@[k])@ == call_again(s[k]),
                decreases stored@.len() - i,
            {
                let c = &stored[i];
                assert(s[i as int] == c@);
                calls.push(
                    RequestCall {
                        id: c.get_str_or_empty("id"),
                        name: c.get_str_or_empty("name"),
                        arguments: match c.get("arguments") {
                            Some(a) => json::to_text(a),
                            None => "{}".to_owned(),
                        },
                    },
                );
                i += 1;
            }
            assert(request_call_views(calls@) =~= Seq::new(s.len(), |i: int| call_again(s[i])));
            return RequestMessage::AssistantCalls { calls };
        }
    }
    RequestMessage::Assistant { content: content.to_owned() }
}

/// What a tool gave, as it is told the provider; `parsed` is what the row holds as JSON.
pub fn replay_tool(content: &str, parsed: &Option<Json>) -> (r: RequestMessage)
    ensures
        r@ == tool_again(content@, json::opt_view(*parsed)),
{
    if let Some(v) = parsed {
        match (v.get_str("tool_call_id"), v.get_str("output")) {
            (Some(call_id), Some(output)) => {
                return RequestMessage::Tool {
                    content: output.to_owned(),
                    call_id: call_id.to_owned(),
                };
            },
            _ => {},
        }
    }
    RequestMessage::Tool { content: content.to_owned(), call_id: "unknown".to_owned() }
}

/// What is attached to each of several rows.
pub open spec fn attached_views(v: Seq<Vec<Attachment>>) -> Seq<Seq<AttachmentView>> {
    Seq::new(v.len(), |i: int| crate::attachments::views(v[i]@))
}

/// The messages of a conversation. `attached` holds what is attached to each row of the
/// history, as far as it could be read.
pub fn build_messages(
    system_prompt: &str,
    history: &Vec<MessageRow>,
    attached: &Vec<Vec<Attachment>>,
    user_content: &str,
    user_attached: &Vec<Attachment>,
) -> (r: Vec<RequestMessage>)
    ensures
        message_views(r@) == conversation(
            system_prompt@,
            crate::db::row_views(history@),
            attached_views(attached@),
            user_content@,
            crate::attachments::views(user_attached@),
        ),
{
    let ghost rows = crate::db::row_views(history@);
    let ghost att = attached_views(attached@);
    let mut out: Vec<RequestMessage> = Vec::new();
    let ghost mut prompt: Seq<MessageView> = Seq::empty();
    if !text::is_blank(system_prompt) {
        proof {
            prompt = seq![MessageView::System { content: system_prompt@ }];
        }
        out.push(RequestMessage::System { content: system_prompt.to_owned() });
    }
    let mut i: usize = 0;
    let none: Vec<Attachment> = Vec::new();
    assert(rows.take(0) =~= Seq::<RowView>::empty());
    assert(message_views(out@) =~= prompt + history_again(rows.take(0), att));
    assert(crate::attachments::views(none@) =~= Seq::<AttachmentView>::empty());
    while i < history.len()
        invariant
            i <= history@.len(),
            rows == crate::db::row_views(history@),
            att == attached_views(attached@),
            crate::attachments::views(none@) == Seq::<AttachmentView>::empty(),
            message_views(out@) == prompt + history_again(rows.take(i as int), att),
        decreases history@.len() - i,
    {
        let row = &history[i];
        assert(rows.take(i + 1).drop_last() =~= rows.take(i as int));
        assert(rows.take(i + 1).last() == row@);
        let files = if i < attached.len() {
            &attached[i]
        } else {
            &none
        };
        assert(crate::attachments::views(files@) == attached_to(att, i as int));
        let role = row.role.as_str();
        let content = row.content.as_str();
        let message = if text::same(role, "user") {
            Some(user_request_message(content, files))
        } else if text::same(role, "assistant") {
            Some(replay_assistant(content, &json::parse(content)))
        } else if text::same(role, "tool") {
            Some(replay_tool(content, &json::parse(content)))
        } else {
            None
        };
        if let Some(m) = message {
            let ghost before = message_views(out@);
            out.push(m);
            assert(message_views(out@) =~= before.push(m@));
            assert(message_views(out@) =~= prompt + history_again(rows.take(i + 1), att));
        }
        i += 1;
    }
    assert(rows.take(i as int) =~= rows);
    let ghost before = message_views(out@);
    let last = user_request_message(user_content, user_attached);
    out.push(last);
    assert(message_views(out@) =~= before + seq![last@]);
    out
}

/// Calls that were stored are told the provider again as they were told it in their own
/// turn.
pub proof fn law_calls_are_replayed(calls: Seq<CallView>)
    ensures
        assistant_again(json::written(stored_calls(calls)), Some(stored_calls(calls)))
            == (MessageView::AssistantCalls { calls: told_calls(calls) }),
{
    let e = json::empty_object();
    let items = Seq::new(calls.len(), |i: int| stored_call(calls[i]));
    json::lemma_with_member(e, "tool_calls"@, JsonView::Array(items));
    let again = Seq::new(items.len(), |i: int| call_again(items[i]));
    assert forall|i: int| 0 <= i < calls.len() implies #[trigger] again[i] == told_calls(
        calls,
    )[i] by {
        lemma_call_again(calls[i]);
    }
    assert(again =~= told_calls(calls));
}

/// A call that was stored is told the provider again as it was.
proof fn lemma_call_again(c: CallView)
    ensures
        call_again(stored_call(c)) == (RequestCallView {
            id: c.id,
            name: c.name,
            arguments: json::written(c.arguments),
        }),
{
    reveal_strlit("id");
    reveal_strlit("name");
    reveal_strlit("arguments");
    assert("id"@.len() == 2 && "name"@.len() == 4 && "arguments"@.len() == 9);
    let e = json::empty_object();
    let c1 = json::with_member(e, "id"@, txt(c.id));
    let c2 = json::with_member(c1, "name"@, txt(c.name));
    json::lemma_with_member(e, "id"@, txt(c.id));
    json::lemma_with_member(c1, "name"@, txt(c.name));
    json::lemma_with_member(c2, "arguments"@, c.arguments);
}

/// An output that was stored is told the provider again as it was told it in its own turn.
pub proof fn law_outputs_are_replayed(call_id: Seq<char>, name: Seq<char>, output: OutputView)
    ensures
        tool_again(
            json::written(stored_result(call_id, name, output)),
            Some(stored_result(call_id, name, output)),
        ) == (MessageView::Tool { content: output.content, call_id }),
{
    reveal_strlit("tool_call_id");
    reveal_strlit("name");
    reveal_strlit("error");
    reveal_strlit("output");
    assert("tool_call_id"@.len() == 12 && "name"@.len() == 4 && "error"@.len() == 5
        && "output"@.len() == 6);
    let e = json::empty_object();
    let r1 = json::with_member(e, "tool_call_id"@, txt(call_id));
    let r2 = json::with_member(r1, "name"@, txt(name));
    let r3 = json::with_member(r2, "error"@, JsonView::Bool(output.is_error));
    json::lemma_with_member(e, "tool_call_id"@, txt(call_id));
    json::lemma_with_member(r1, "name"@, txt(name));
    json::lemma_with_member(r2, "error"@, JsonView::Bool(output.is_error));
    json::lemma_with_member(r3, "output"@, txt(output.content));
}

/// What the model thought in an earlier turn is never sent again: the messages do not
/// depend on it, and reasoning goes into a request only where this turn has some.
pub proof fn law_old_reasoning_is_not_sent(
    row: RowView,
    thinking: Option<Seq<char>>,
    attached: Seq<AttachmentView>,
    ms: Seq<MessageView>,
    i: int,
)
    requires
        0 <= i < ms.len(),
    ensures
        row_again(
            RowView {
                message: crate::db::NewMessageView { thinking, ..row.message },
                ..row
            },
            attached,
        ) == row_again(row, attached),
        messages_json(ms, None)[i] == message_json(ms[i]),
{
}

// ---------------------------------------------------------------------------
// The prompt
// ---------------------------------------------------------------------------

/// The prompt of a conversation that has none of its own.
pub const DEFAULT_SYSTEM_PROMPT: &'static str =
    "You are a helpful general-purpose assistant. Be concise, accurate, and clear.";

/// The parts of the prompt that come before the memory: what the user prefers, the prompt
/// proper, and the model's name.
pub open spec fn prompt_parts(
    base: Seq<char>,
    model_label: Seq<char>,
    preferences: Seq<char>,
) -> Seq<Seq<char>> {
    let first = if text::blank(preferences) {
        Seq::empty()
    } else {
        seq!["User preferences:\n"@ + text::trimmed(preferences)]
    };
    let last = if text::blank(model_label) {
        Seq::empty()
    } else {
        seq!["You are currently running as the model \""@ + text::trimmed(model_label) + "\"."@]
    };
    first + seq![text::trimmed(base)] + last
}

/// The prompt: the parts, and what is told the model of its memory.
pub open spec fn prompt_of(
    base: Seq<char>,
    model_label: Seq<char>,
    preferences: Seq<char>,
    m: MemoryView,
) -> Seq<char> {
    let head = text::joined(prompt_parts(base, model_label, preferences), "\n\n"@);
    let block = memory::context_of(m);
    if text::blank(block) {
        head
    } else {
        head + "\n\n"@ + block
    }
}

/// The prompt of a turn.
pub fn build_system_prompt(
    base: &str,
    model_label: &str,
    preferences: &str,
    memory: &MemoryState,
) -> (r: String)
    ensures
        r@ == prompt_of(base@, model_label@, preferences@, memory@),
{
    let mut parts: Vec<String> = Vec::new();
    if !text::is_blank(preferences) {
        let mut part = "User preferences:\n".to_owned();
        part.append(text::trim(preferences).as_str());
        parts.push(part);
    }
    parts.push(text::trim(base));
    if !text::is_blank(model_label) {
        let mut part = "You are currently running as the model \"".to_owned();
        part.append(text::trim(model_label).as_str());
        part.append("\".");
        parts.push(part);
    }
    assert(text::texts(parts@) =~= prompt_parts(base@, model_label@, preferences@));
    let mut prompt = text::join(&parts, "\n\n");
    let block = memory.context_block();
    if !text::is_blank(block.as_str()) {
        prompt.append("\n\n");
        prompt.append(block.as_str());
    }
    prompt
}

// ---------------------------------------------------------------------------
// What is told of what was said
// ---------------------------------------------------------------------------

/// Whether an attachment is an image that can be shown.
pub open spec fn is_shown(a: AttachmentView) -> bool {
    a.kind == "image"@ && a.data_url is Some
}

/// Whether an attachment is a text that has something to say.
pub open spec fn is_read(a: AttachmentView) -> bool {
    a.text is Some && !text::blank(a.text->0)
}

/// A text file as it is put into a message.
pub open spec fn as_file(a: AttachmentView) -> Seq<char> {
    "--- File: "@ + a.name + " ---\n"@ + a.text->0
}

/// The images in a message, in their order.
pub open spec fn shown_in(m: MessageView) -> Seq<Seq<char>> {
    match m {
        MessageView::UserParts { parts } => parts.filter(|p: PartView| p is Image).map_values(
            |p: PartView| p->url,
        ),
        _ => Seq::empty(),
    }
}

/// The images that go with a message are those that are attached, and no others.
proof fn lemma_images(attached: Seq<AttachmentView>)
    ensures
        images(attached) == attached.filter(|a: AttachmentView| is_shown(a)).map_values(
            |a: AttachmentView| a.data_url->0,
        ),
    decreases attached.len(),
{
    reveal(Seq::filter);
    let shown = attached.filter(|a: AttachmentView| is_shown(a));
    let url = |a: AttachmentView| a.data_url->0;
    if attached.len() > 0 {
        lemma_images(attached.drop_last());
        let before = attached.drop_last().filter(|a: AttachmentView| is_shown(a));
        if is_shown(attached.last()) {
            assert(shown =~= before.push(attached.last()));
            assert(shown.map_values(url) =~= before.map_values(url).push(url(attached.last())));
        } else {
            assert(shown =~= before);
        }
    }
    assert(images(attached) =~= shown.map_values(url));
}

/// A filter on parts that are all images keeps them.
proof fn lemma_all_images(urls: Seq<Seq<char>>)
    ensures
        ({
            let parts = Seq::new(urls.len(), |i: int| PartView::Image { url: urls[i] });
            parts.filter(|p: PartView| p is Image) == parts
        }),
    decreases urls.len(),
{
    reveal(Seq::filter);
    let parts = Seq::new(urls.len(), |i: int| PartView::Image { url: urls[i] });
    let f = |p: PartView| p is Image;
    if urls.len() > 0 {
        let front = urls.drop_last();
        let before = Seq::new(front.len(), |i: int| PartView::Image { url: front[i] });
        lemma_all_images(front);
        assert(parts.drop_last() =~= before);
        assert(parts.filter(f) =~= before.push(parts.last()));
        assert(before.push(parts.last()) =~= parts);
    } else {
        assert(parts.filter(f) =~= parts);
    }
}

/// A filter on a first part that is no image, and others, leaves the first out.
proof fn lemma_first_left_out(first: PartView, parts: Seq<PartView>)
    requires
        first !is Image,
    ensures
        (seq![first] + parts).filter(|p: PartView| p is Image) == parts.filter(
            |p: PartView| p is Image,
        ),
    decreases parts.len(),
{
    reveal(Seq::filter);
    let all = seq![first] + parts;
    let f = |p: PartView| p is Image;
    if parts.len() == 0 {
        assert(all =~= seq![first]);
        assert(all.drop_last() =~= Seq::<PartView>::empty());
        assert(all.drop_last().filter(f) =~= Seq::<PartView>::empty());
        assert(parts.filter(f) =~= Seq::<PartView>::empty());
        assert(all.filter(f) =~= parts.filter(f));
    } else {
        lemma_first_left_out(first, parts.drop_last());
        assert(all.drop_last() =~= seq![first] + parts.drop_last());
        assert(all.last() == parts.last());
        assert(all.filter(f) =~= parts.filter(f));
    }
}

/// The images that are sent with what the user says are those that are attached to it: each
/// attachment that is an image, once, in the order in which they are attached. Where there
/// is none, the message is a text.
pub proof fn law_images_are_sent(content: Seq<char>, attached: Seq<AttachmentView>)
    ensures
        ({
            let m = user_message(content, attached);
            let shown = attached.filter(|a: AttachmentView| is_shown(a));
            &&& shown_in(m) == shown.map_values(|a: AttachmentView| a.data_url->0)
            &&& shown_in(m).len() == shown.len()
            &&& (m is User) == (shown.len() == 0)
            &&& (m is UserParts) == (shown.len() > 0)
        }),
{
    let urls = images(attached);
    let shown = Seq::new(urls.len(), |i: int| PartView::Image { url: urls[i] });
    let f = |p: PartView| p is Image;
    let url = |p: PartView| p->url;
    lemma_images(attached);
    lemma_all_images(urls);
    lemma_first_left_out(PartView::Text { text: folded(content, attached) }, shown);
    assert(shown.filter(f).map_values(url) =~= urls);
}

/// What a filter keeps was there and passes it, and what passes it is kept.
proof fn lemma_filtered<A>(s: Seq<A>, f: spec_fn(A) -> bool)
    ensures
        forall|k: int|
            0 <= k < s.filter(f).len() ==> f(#[trigger] s.filter(f)[k]) && s.contains(
                s.filter(f)[k],
            ),
        forall|i: int|
            0 <= i < s.len() && f(#[trigger] s[i]) ==> s.filter(f).contains(s[i]),
    decreases s.len(),
{
    reveal(Seq::filter);
    if s.len() > 0 {
        let front = s.drop_last();
        let r = s.filter(f);
        let before = front.filter(f);
        lemma_filtered(front, f);
        assert forall|k: int| 0 <= k < r.len() implies f(#[trigger] r[k]) && s.contains(r[k]) by {
            if k < before.len() {
                assert(r[k] == before[k]);
                assert(front.contains(before[k]));
                let i = choose|i: int| 0 <= i < front.len() && front[i] == before[k];
                assert(s[i] == r[k]);
            } else {
                assert(s[s.len() - 1] == r[k]);
            }
        }
        assert forall|i: int| 0 <= i < s.len() && f(#[trigger] s[i]) implies r.contains(s[i]) by {
            if i < front.len() {
                assert(front[i] == s[i]);
                assert(before.contains(front[i]));
                let k = choose|k: int| 0 <= k < before.len() && before[k] == front[i];
                assert(r[k] == s[i]);
            } else {
                assert(r[r.len() - 1] == s[i]);
            }
        }
    }
}

/// Every image that is attached is sent, and what is sent is attached.
pub proof fn law_no_image_is_lost(content: Seq<char>, attached: Seq<AttachmentView>)
    ensures
        forall|i: int|
            0 <= i < attached.len() && is_shown(#[trigger] attached[i]) ==> shown_in(
                user_message(content, attached),
            ).contains(attached[i].data_url->0),
        forall|url: Seq<char>| #[trigger]
            shown_in(user_message(content, attached)).contains(url) ==> exists|i: int|
                0 <= i < attached.len() && is_shown(#[trigger] attached[i])
                    && attached[i].data_url->0 == url,
{
    law_images_are_sent(content, attached);
    let f = |a: AttachmentView| is_shown(a);
    let url = |a: AttachmentView| a.data_url->0;
    let shown = attached.filter(f);
    let sent = shown_in(user_message(content, attached));
    assert forall|i: int| 0 <= i < attached.len() && is_shown(#[trigger] attached[i]) implies sent.contains(
        attached[i].data_url->0,
    ) by {
        lemma_filtered(attached, f);
        assert(f(attached[i]));
        assert(shown.contains(attached[i]));
        let k = choose|k: int| 0 <= k < shown.len() && shown[k] == attached[i];
        assert(sent[k] == attached[i].data_url->0);
    }
    assert forall|u: Seq<char>| #[trigger] sent.contains(u) implies exists|i: int|
        0 <= i < attached.len() && is_shown(#[trigger] attached[i]) && attached[i].data_url->0
            == u by {
        lemma_filtered(attached, f);
        let k = choose|k: int| 0 <= k < sent.len() && sent[k] == u;
        assert(shown.contains(shown[k]));
        assert(f(shown[k]));
        assert(attached.contains(shown[k]));
        let i = choose|i: int| 0 <= i < attached.len() && attached[i] == shown[k];
        assert(attached[i].data_url->0 == u);
    }
}

/// The text of a message: what it says, or its first part where that is text.
pub open spec fn text_in(m: MessageView) -> Seq<char> {
    match m {
        MessageView::User { content } => content,
        MessageView::UserParts { parts } => if parts.len() > 0 && parts[0] is Text {
            parts[0]->text
        } else {
            Seq::empty()
        },
        _ => Seq::empty(),
    }
}

/// The text that goes with files, where there is something said.
proof fn lemma_folded(content: Seq<char>, attached: Seq<AttachmentView>)
    requires
        !text::blank(content),
    ensures
        folded(content, attached) == content + attached.filter(
            |a: AttachmentView| is_read(a),
        ).map_values(|a: AttachmentView| "\n\n"@ + as_file(a)).flatten(),
        !text::blank(folded(content, attached)),
    decreases attached.len(),
{
    reveal(Seq::filter);
    let f = |a: AttachmentView| is_read(a);
    let g = |a: AttachmentView| "\n\n"@ + as_file(a);
    let files = attached.filter(f).map_values(g);
    if attached.len() == 0 {
        assert(content + files.flatten() =~= content);
    } else {
        let front = attached.drop_last();
        let a = attached.last();
        lemma_folded(content, front);
        let before = front.filter(f).map_values(g);
        if is_read(a) {
            assert(attached.filter(f) =~= front.filter(f).push(a));
            assert(files =~= before.push(g(a)));
            before.lemma_flatten_push(g(a));
            assert(folded(content, attached) =~= content + files.flatten());
            text::lemma_longer_is_not_blank(folded(content, front), "\n\n"@ + as_file(a));
            assert(folded(content, front) + ("\n\n"@ + as_file(a)) =~= folded(content, attached));
        } else {
            assert(attached.filter(f) =~= front.filter(f));
        }
    }
}

/// What the user says is sent as it is, and the text files that go with it after it, each
/// with its name and all that it holds, in the order in which they are attached.
pub proof fn law_text_files_are_sent(content: Seq<char>, attached: Seq<AttachmentView>)
    requires
        !text::blank(content),
    ensures
        text_in(user_message(content, attached)) == content + attached.filter(
            |a: AttachmentView| is_read(a),
        ).map_values(|a: AttachmentView| "\n\n"@ + as_file(a)).flatten(),
{
    lemma_folded(content, attached);
}

/// Where nothing is said beside it, a text file is sent alone; others come after it as they
/// do after what is said.
pub proof fn law_text_file_is_sent_alone(
    content: Seq<char>,
    before: Seq<AttachmentView>,
    a: AttachmentView,
    after: Seq<AttachmentView>,
)
    requires
        text::blank(content),
        is_read(a),
        forall|i: int| 0 <= i < before.len() ==> !is_read(#[trigger] before[i]),
        forall|i: int| 0 <= i < after.len() ==> (#[trigger] after[i]).text is None,
    ensures
        text_in(user_message(content, before.push(a) + after)) == content + as_file(a),
{
    lemma_folded_nothing(content, before);
    lemma_folded_on(content, before.push(a), after);
    assert(before.push(a).drop_last() =~= before);
    assert(folded(content, before.push(a)) =~= content + as_file(a));
    reveal_strlit("--- File: ");
    assert("--- File: "@[0] == '-');
    assert(as_file(a)[0] == '-');
    text::lemma_not_blank(content + as_file(a), content.len() as int);
}

/// Files without text add nothing.
proof fn lemma_folded_nothing(content: Seq<char>, attached: Seq<AttachmentView>)
    requires
        forall|i: int| 0 <= i < attached.len() ==> !is_read(#[trigger] attached[i]),
    ensures
        folded(content, attached) == content,
    decreases attached.len(),
{
    if attached.len() > 0 {
        let front = attached.drop_last();
        assert(!is_read(attached[attached.len() - 1]));
        assert forall|i: int| 0 <= i < front.len() implies !is_read(#[trigger] front[i]) by {
            assert(front[i] == attached[i]);
        }
        lemma_folded_nothing(content, front);
    }
}

/// Files without text that come after others add nothing.
proof fn lemma_folded_on(
    content: Seq<char>,
    attached: Seq<AttachmentView>,
    after: Seq<AttachmentView>,
)
    requires
        forall|i: int| 0 <= i < after.len() ==> (#[trigger] after[i]).text is None,
    ensures
        folded(content, attached + after) == folded(content, attached),
    decreases after.len(),
{
    if after.len() == 0 {
        assert(attached + after =~= attached);
    } else {
        let front = after.drop_last();
        assert(after[after.len() - 1].text is None);
        assert forall|i: int| 0 <= i < front.len() implies (#[trigger] front[i]).text is None by {
            assert(front[i] == after[i]);
        }
        lemma_folded_on(content, attached, front);
        assert((attached + after).drop_last() =~= attached + front);
        assert((attached + after).last() == after.last());
    }
}

/// Whether a row is one that the provider is told.
pub open spec fn is_told(row: RowView) -> bool {
    let role = row.message.role;
    role == "user"@ || role == "assistant"@ || role == "tool"@
}

/// The history of rows that are all told has a message for each.
proof fn lemma_history(rows: Seq<RowView>, attached: Seq<Seq<AttachmentView>>)
    requires
        forall|i: int| 0 <= i < rows.len() ==> is_told(#[trigger] rows[i]),
    ensures
        history_again(rows, attached).len() == rows.len(),
        forall|i: int|
            0 <= i < rows.len() ==> Some(#[trigger] history_again(rows, attached)[i]) == row_again(
                rows[i],
                attached_to(attached, i),
            ),
    decreases rows.len(),
{
    if rows.len() > 0 {
        let front = rows.drop_last();
        assert(is_told(rows[rows.len() - 1]));
        assert forall|i: int| 0 <= i < front.len() implies is_told(#[trigger] front[i]) by {
            assert(front[i] == rows[i]);
        }
        lemma_history(front, attached);
    }
}

/// The provider is told the whole conversation: the prompt, unless it is blank, a message
/// for each row of the history in its order, and what is said now. What the user said is
/// told with what is attached to it, what the model said as it was, its calls with their
/// ids, names and arguments, and what a tool gave under the id of its call.
pub proof fn law_history_is_told(
    system_prompt: Seq<char>,
    rows: Seq<RowView>,
    attached: Seq<Seq<AttachmentView>>,
    content: Seq<char>,
    now_attached: Seq<AttachmentView>,
    i: int,
)
    requires
        forall|i: int| 0 <= i < rows.len() ==> is_told(#[trigger] rows[i]),
        0 <= i < rows.len(),
    ensures
        ({
            let ms = conversation(system_prompt, rows, attached, content, now_attached);
            let first = if text::blank(system_prompt) {
                0int
            } else {
                1int
            };
            let said = rows[i].message.content;
            let role = rows[i].message.role;
            let files = if i < attached.len() {
                attached[i]
            } else {
                Seq::empty()
            };
            let m = ms[first + i];
            &&& ms.len() == first + rows.len() + 1
            &&& first == 1 ==> ms[0] == (MessageView::System { content: system_prompt })
            &&& ms.last() == user_message(content, now_attached)
            &&& now_attached.len() == 0 ==> ms.last() == (MessageView::User { content })
            &&& role == "user"@ ==> m == user_message(said, files)
            &&& role == "user"@ && files.len() == 0 ==> m == (MessageView::User { content: said })
            &&& role == "assistant"@ && (json::json_parse(said) is None || json::member_items(
                json::json_parse(said)->0,
                "tool_calls"@,
            ) is None) ==> m == (MessageView::Assistant { content: said })
            &&& role == "tool"@ && json::json_parse(said) is None ==> m == (MessageView::Tool {
                content: said,
                call_id: "unknown"@,
            })
            &&& role == "tool"@ ==> (json::json_parse(said) matches Some(v) ==> (
            json::member_text(v, "tool_call_id"@) matches Some(call_id) ==> (
            json::member_text(v, "output"@) matches Some(output) ==> m == (MessageView::Tool {
                content: output,
                call_id,
            }))))
        }),
{
    lemma_history(rows, attached);
    let ms = conversation(system_prompt, rows, attached, content, now_attached);
    let first = if text::blank(system_prompt) {
        0int
    } else {
        1int
    };
    assert(is_told(rows[i]));
    lemma_roles();
    assert(ms[first + i] == history_again(rows, attached)[i]);
    assert(folded(content, now_attached) == content || now_attached.len() > 0);
}

/// The roles are told apart.
proof fn lemma_roles()
    ensures
        "user"@ != "assistant"@ && "user"@ != "tool"@ && "assistant"@ != "tool"@,
{
    reveal_strlit("user");
    reveal_strlit("assistant");
    reveal_strlit("tool");
    assert("user"@.len() == 4 && "assistant"@.len() == 9 && "tool"@[0] == 't' && "user"@[0] == 'u');
}

/// Calls that were stored are told one for one: each with its id, its name, and its
/// arguments as they are written.
pub proof fn law_stored_calls_are_told(said: Seq<char>, v: JsonView, calls: Seq<JsonView>, i: int)
    requires
        json::member(v, "tool_calls"@) == Some(JsonView::Array(calls)),
        0 <= i < calls.len(),
    ensures
        ({
            let m = assistant_again(said, Some(v));
            &&& m is AssistantCalls
            &&& m->calls.len() == calls.len()
            &&& json::member(calls[i], "id"@) matches Some(JsonView::Text(id)) ==> m->calls[i].id
                == id
            &&& json::member(calls[i], "name"@) matches Some(JsonView::Text(n)) ==> m->calls[i].name
                == n
            &&& json::member(calls[i], "arguments"@) matches Some(a) ==> m->calls[i].arguments
                == json::written(a)
        }),
{
}

/// The calls of a round are told the provider one for one, in their order.
pub proof fn law_calls_are_told(calls: Seq<CallView>, i: int)
    requires
        0 <= i < calls.len(),
    ensures
        told_calls(calls).len() == calls.len(),
        told_calls(calls)[i].id == calls[i].id,
        told_calls(calls)[i].name == calls[i].name,
        told_calls(calls)[i].arguments == json::written(calls[i].arguments),
{
}

// ---------------------------------------------------------------------------
// The form of what is sent
// ---------------------------------------------------------------------------

/// A message says whose it is and what is said in it.
pub proof fn law_messages_say_who_speaks(
    content: Seq<char>,
    call_id: Seq<char>,
    parts: Seq<PartView>,
    calls: Seq<RequestCallView>,
)
    ensures
        ({
            let system = message_json(MessageView::System { content });
            let user = message_json(MessageView::User { content });
            let shown = message_json(MessageView::UserParts { parts });
            let assistant = message_json(MessageView::Assistant { content });
            let asked = message_json(MessageView::AssistantCalls { calls });
            let tool = message_json(MessageView::Tool { content, call_id });
            &&& json::member_text(system, "role"@) == Some("system"@)
            &&& json::member_text(system, "content"@) == Some(content)
            &&& json::member_text(user, "role"@) == Some("user"@)
            &&& json::member_text(user, "content"@) == Some(content)
            &&& json::member_text(shown, "role"@) == Some("user"@)
            &&& json::member_items(shown, "content"@) matches Some(items) && items.len()
                == parts.len()
            &&& json::member_text(assistant, "role"@) == Some("assistant"@)
            &&& json::member_text(assistant, "content"@) == Some(content)
            &&& json::member_text(asked, "role"@) == Some("assistant"@)
            &&& json::member_items(asked, "tool_calls"@) matches Some(items) && items.len()
                == calls.len()
            &&& json::member_text(tool, "role"@) == Some("tool"@)
            &&& json::member_text(tool, "content"@) == Some(content)
            &&& json::member_text(tool, "tool_call_id"@) == Some(call_id)
        }),
{
    reveal_strlit("role");
    reveal_strlit("content");
    reveal_strlit("tool_calls");
    reveal_strlit("tool_call_id");
    assert("role"@.len() == 4 && "content"@.len() == 7 && "tool_calls"@.len() == 10
        && "tool_call_id"@.len() == 12);
    let shown = JsonView::Array(Seq::new(parts.len(), |i: int| part_json(parts[i])));
    let asked = JsonView::Array(Seq::new(calls.len(), |i: int| request_call_json(calls[i])));
    lemma_role("system"@, txt(content));
    lemma_role("user"@, txt(content));
    lemma_role("user"@, shown);
    lemma_role("assistant"@, txt(content));
    lemma_role("tool"@, txt(content));
    let e = json::empty_object();
    json::lemma_with_member(e, "role"@, txt("assistant"@));
    json::lemma_with_member(
        json::with_member(e, "role"@, txt("assistant"@)),
        "tool_calls"@,
        asked,
    );
    json::lemma_with_member(role_json("tool"@, txt(content)), "tool_call_id"@, txt(call_id));
}

/// What a message of a role has under its two keys.
proof fn lemma_role(role: Seq<char>, content: JsonView)
    ensures
        json::in_order(role_json(role, content)),
        json::can_hold(role_json(role, content)),
        json::member(role_json(role, content), "role"@) == Some(txt(role)),
        json::member(role_json(role, content), "content"@) == Some(content),
{
    reveal_strlit("role");
    reveal_strlit("content");
    assert("role"@.len() == 4 && "content"@.len() == 7);
    let e = json::empty_object();
    json::lemma_with_member(e, "role"@, txt(role));
    json::lemma_with_member(json::with_member(e, "role"@, txt(role)), "content"@, content);
}

/// A part of what the user says has its text, or the address of its image.
pub proof fn law_parts_say_what_they_are(t: Seq<char>, url: Seq<char>)
    ensures
        ({
            let said = part_json(PartView::Text { text: t });
            let shown = part_json(PartView::Image { url });
            &&& json::member_text(said, "type"@) == Some("text"@)
            &&& json::member_text(said, "text"@) == Some(t)
            &&& json::member_text(shown, "type"@) == Some("image_url"@)
            &&& json::member(shown, "image_url"@) matches Some(image) && json::member_text(
                image,
                "url"@,
            ) == Some(url)
        }),
{
    reveal_strlit("type");
    reveal_strlit("text");
    reveal_strlit("image_url");
    assert("type"@[1] == 'y' && "text"@[1] == 'e' && "image_url"@.len() == 9 && "type"@.len() == 4);
    let e = json::empty_object();
    json::lemma_with_member(e, "type"@, txt("text"@));
    json::lemma_with_member(json::with_member(e, "type"@, txt("text"@)), "text"@, txt(t));
    json::lemma_with_member(e, "url"@, txt(url));
    let image = json::with_member(e, "url"@, txt(url));
    json::lemma_with_member(e, "type"@, txt("image_url"@));
    json::lemma_with_member(json::with_member(e, "type"@, txt("image_url"@)), "image_url"@, image);
}

/// A call that is told the provider has its id, its name and its arguments.
pub proof fn law_told_call_is_complete(c: RequestCallView)
    ensures
        ({
            let v = request_call_json(c);
            &&& json::member_text(v, "id"@) == Some(c.id)
            &&& json::member_text(v, "type"@) == Some("function"@)
            &&& json::member(v, "function"@) matches Some(f) && json::member_text(f, "name"@)
                == Some(c.name) && json::member_text(f, "arguments"@) == Some(c.arguments)
        }),
{
    reveal_strlit("id");
    reveal_strlit("type");
    reveal_strlit("function");
    reveal_strlit("name");
    reveal_strlit("arguments");
    assert("id"@.len() == 2 && "type"@.len() == 4 && "function"@.len() == 8 && "name"@.len() == 4
        && "arguments"@.len() == 9);
    let e = json::empty_object();
    let f1 = json::with_member(e, "name"@, txt(c.name));
    let f2 = json::with_member(f1, "arguments"@, txt(c.arguments));
    json::lemma_with_member(e, "name"@, txt(c.name));
    json::lemma_with_member(f1, "arguments"@, txt(c.arguments));
    let v1 = json::with_member(e, "type"@, txt("function"@));
    let v2 = json::with_member(v1, "id"@, txt(c.id));
    json::lemma_with_member(e, "type"@, txt("function"@));
    json::lemma_with_member(v1, "id"@, txt(c.id));
    json::lemma_with_member(v2, "function"@, f2);
}

/// The offer of a tool has its name, what it is for, and what it takes.
pub proof fn law_offer_is_complete(t: SpecView)
    ensures
        ({
            let v = tool_json(t);
            &&& json::member_text(v, "type"@) == Some("function"@)
            &&& json::member(v, "function"@) matches Some(f) && json::member_text(f, "name"@)
                == Some(t.name) && json::member_text(f, "description"@) == Some(t.description)
                && json::member(f, "parameters"@) == Some(json::canonical(t.parameters))
        }),
{
    reveal_strlit("type");
    reveal_strlit("function");
    reveal_strlit("name");
    reveal_strlit("description");
    reveal_strlit("parameters");
    assert("type"@.len() == 4 && "function"@.len() == 8 && "name"@.len() == 4
        && "description"@.len() == 11 && "parameters"@.len() == 10);
    let e = json::empty_object();
    let f1 = json::with_member(e, "name"@, txt(t.name));
    let f2 = json::with_member(f1, "description"@, txt(t.description));
    let f3 = json::with_member(f2, "parameters"@, json::canonical(t.parameters));
    json::lemma_with_member(e, "name"@, txt(t.name));
    json::lemma_with_member(f1, "description"@, txt(t.description));
    json::lemma_with_member(f2, "parameters"@, json::canonical(t.parameters));
    let v1 = json::with_member(e, "type"@, txt("function"@));
    json::lemma_with_member(e, "type"@, txt("function"@));
    json::lemma_with_member(v1, "function"@, f3);
}

/// What is asked of the provider: the model, every message in its order, every tool, an
/// answer that is streamed with its counts, and the effort that the user wants, where they
/// want a certain one.
pub proof fn law_request_is_complete(
    model: Seq<char>,
    documents: Seq<JsonView>,
    offered: Seq<SpecView>,
    thinking_level: Seq<char>,
)
    ensures
        ({
            let body = body_with(model, documents, offered, thinking_level);
            let level = text::trimmed(thinking_level);
            &&& json::member_text(body, "model"@) == Some(model)
            &&& json::member_items(body, "messages"@) == Some(documents)
            &&& json::member_bool(body, "stream"@) == Some(true)
            &&& json::member(body, "stream_options"@) matches Some(o) && json::member_bool(
                o,
                "include_usage"@,
            ) == Some(true)
            &&& json::member_items(body, "tools"@) matches Some(tools) && tools.len()
                == offered.len() && forall|i: int|
                0 <= i < offered.len() ==> #[trigger] tools[i] == tool_json(offered[i])
            &&& level.len() == 0 || level == "default"@ ==> json::member(
                body,
                "reasoning_effort"@,
            ) is None
            &&& level.len() > 0 && level != "default"@ ==> json::member_text(
                body,
                "reasoning_effort"@,
            ) == Some(level)
        }),
{
    reveal_strlit("model");
    reveal_strlit("messages");
    reveal_strlit("stream");
    reveal_strlit("stream_options");
    reveal_strlit("tools");
    reveal_strlit("reasoning_effort");
    assert("model"@.len() == 5 && "messages"@.len() == 8 && "stream"@.len() == 6
        && "stream_options"@.len() == 14 && "tools"@.len() == 5 && "reasoning_effort"@.len() == 16);
    assert("model"@[0] == 'm' && "tools"@[0] == 't');
    let e = json::empty_object();
    let options = json::with_member(e, "include_usage"@, JsonView::Bool(true));
    json::lemma_with_member(e, "include_usage"@, JsonView::Bool(true));
    let b1 = json::with_member(e, "model"@, txt(model));
    let b2 = json::with_member(b1, "messages"@, JsonView::Array(documents));
    let b3 = json::with_member(b2, "stream"@, JsonView::Bool(true));
    let b4 = json::with_member(b3, "stream_options"@, options);
    let offers = JsonView::Array(Seq::new(offered.len(), |i: int| tool_json(offered[i])));
    let b5 = json::with_member(b4, "tools"@, offers);
    json::lemma_with_member(e, "model"@, txt(model));
    json::lemma_with_member(b1, "messages"@, JsonView::Array(documents));
    json::lemma_with_member(b2, "stream"@, JsonView::Bool(true));
    json::lemma_with_member(b3, "stream_options"@, options);
    json::lemma_with_member(b4, "tools"@, offers);
    json::lemma_with_member(b5, "reasoning_effort"@, txt(text::trimmed(thinking_level)));
    assert(json::member(e, "reasoning_effort"@) is None);
}

/// Each message is told with the thought at its place, where there is one that is not
/// blank, and as it is where there is none.
pub proof fn law_thoughts_stay_with_their_messages(
    ms: Seq<MessageView>,
    thoughts: Seq<Option<Seq<char>>>,
    i: int,
)
    requires
        0 <= i < ms.len(),
        ms.len() == thoughts.len(),
    ensures
        ({
            let d = told(ms, thoughts)[i];
            &&& told(ms, thoughts).len() == ms.len()
            &&& thoughts[i] matches Some(t) ==> (text::blank(t) ==> d == message_json(ms[i])) && (
            !text::blank(t) ==> json::member_text(d, "reasoning_content"@) == Some(t))
            &&& thoughts[i] is None ==> d == message_json(ms[i])
        }),
{
    if let Some(t) = thoughts[i] {
        lemma_message_in_order(ms[i]);
        json::lemma_with_member(message_json(ms[i]), "reasoning_content"@, txt(t));
    }
}

/// A message is a document in order.
proof fn lemma_message_in_order(m: MessageView)
    ensures
        json::in_order(message_json(m)),
        json::can_hold(message_json(m)),
{
    match m {
        MessageView::System { content } => lemma_role("system"@, txt(content)),
        MessageView::User { content } => lemma_role("user"@, txt(content)),
        MessageView::UserParts { parts } => {
            lemma_role(
                "user"@,
                JsonView::Array(Seq::new(parts.len(), |i: int| part_json(parts[i]))),
            );
        },
        MessageView::Assistant { content } => lemma_role("assistant"@, txt(content)),
        MessageView::AssistantCalls { calls } => {
            let e = json::empty_object();
            let asked = JsonView::Array(
                Seq::new(calls.len(), |i: int| request_call_json(calls[i])),
            );
            json::lemma_with_member(e, "role"@, txt("assistant"@));
            json::lemma_with_member(
                json::with_member(e, "role"@, txt("assistant"@)),
                "tool_calls"@,
                asked,
            );
        },
        MessageView::Tool { content, call_id } => {
            lemma_role("tool"@, txt(content));
            json::lemma_with_member(
                role_json("tool"@, txt(content)),
                "tool_call_id"@,
                txt(call_id),
            );
        },
    }
}

/// The reasoning that is sent without a place of its own goes with the last calls of tools,
/// and with no other message.
pub proof fn law_reasoning_goes_with_last_calls(ms: Seq<MessageView>, t: Seq<char>, i: int)
    requires
        0 <= i < ms.len(),
        !text::blank(t),
    ensures
        messages_json(ms, Some(t)).len() == ms.len(),
        ms[i] is AssistantCalls && (forall|k: int|
            i < k < ms.len() ==> (#[trigger] ms[k]) !is AssistantCalls) ==> json::member_text(
            messages_json(ms, Some(t))[i],
            "reasoning_content"@,
        ) == Some(t),
        ms[i] !is AssistantCalls || (exists|k: int|
            i < k < ms.len() && (#[trigger] ms[k]) is AssistantCalls) ==> messages_json(
            ms,
            Some(t),
        )[i] == message_json(ms[i]),
{
    lemma_last_calls(ms);
    lemma_message_in_order(ms[i]);
    json::lemma_with_member(message_json(ms[i]), "reasoning_content"@, txt(t));
}

/// What `last_calls` returns.
proof fn lemma_last_calls(ms: Seq<MessageView>)
    ensures
        match last_calls(ms) {
            Some(i) => 0 <= i < ms.len() && ms[i] is AssistantCalls && forall|k: int|
                i < k < ms.len() ==> (#[trigger] ms[k]) !is AssistantCalls,
            None => forall|k: int| 0 <= k < ms.len() ==> (#[trigger] ms[k]) !is AssistantCalls,
        },
    decreases ms.len(),
{
    if ms.len() > 0 && ms.last() !is AssistantCalls {
        let front = ms.drop_last();
        lemma_last_calls(front);
        assert forall|k: int| 0 <= k < front.len() implies #[trigger] ms[k] == front[k] by {}
        match last_calls(front) {
            Some(i) => {
                assert(ms[i] == front[i]);
                assert forall|k: int| i < k < ms.len() implies (#[trigger] ms[k])
                    !is AssistantCalls by {
                    if k < front.len() {
                        assert(front[k] !is AssistantCalls);
                    }
                }
            },
            None => {
                assert forall|k: int| 0 <= k < ms.len() implies (#[trigger] ms[k])
                    !is AssistantCalls by {
                    if k < front.len() {
                        assert(front[k] !is AssistantCalls);
                    }
                }
            },
        }
    }
}

/// What is stored of calls and of an output can be told from what is stored: the ids, the
/// names, the arguments, what the tool gave and whether it failed.
pub proof fn law_stored_forms_are_complete(
    c: CallView,
    call_id: Seq<char>,
    name: Seq<char>,
    output: OutputView,
)
    ensures
        ({
            let v = stored_call(c);
            let r = stored_result(call_id, name, output);
            &&& json::member_text(v, "id"@) == Some(c.id)
            &&& json::member_text(v, "name"@) == Some(c.name)
            &&& json::member(v, "arguments"@) == Some(c.arguments)
            &&& json::member_text(r, "tool_call_id"@) == Some(call_id)
            &&& json::member_text(r, "name"@) == Some(name)
            &&& json::member_bool(r, "error"@) == Some(output.is_error)
            &&& json::member_text(r, "output"@) == Some(output.content)
        }),
{
    reveal_strlit("id");
    reveal_strlit("name");
    reveal_strlit("arguments");
    reveal_strlit("tool_call_id");
    reveal_strlit("error");
    reveal_strlit("output");
    assert("id"@.len() == 2 && "name"@.len() == 4 && "arguments"@.len() == 9
        && "tool_call_id"@.len() == 12 && "error"@.len() == 5 && "output"@.len() == 6);
    let e = json::empty_object();
    let c1 = json::with_member(e, "id"@, txt(c.id));
    let c2 = json::with_member(c1, "name"@, txt(c.name));
    json::lemma_with_member(e, "id"@, txt(c.id));
    json::lemma_with_member(c1, "name"@, txt(c.name));
    json::lemma_with_member(c2, "arguments"@, c.arguments);
    let r1 = json::with_member(e, "tool_call_id"@, txt(call_id));
    let r2 = json::with_member(r1, "name"@, txt(name));
    let r3 = json::with_member(r2, "error"@, JsonView::Bool(output.is_error));
    json::lemma_with_member(e, "tool_call_id"@, txt(call_id));
    json::lemma_with_member(r1, "name"@, txt(name));
    json::lemma_with_member(r2, "error"@, JsonView::Bool(output.is_error));
    json::lemma_with_member(r3, "output"@, txt(output.content));
}

/// The prompt says, in this order: what the user prefers, the prompt proper, which model
/// runs, and what is told of the memory; each only where there is something to say.
pub proof fn law_prompt_says_all(
    base: Seq<char>,
    model_label: Seq<char>,
    preferences: Seq<char>,
    m: MemoryView,
)
    ensures
        ({
            let first = if text::blank(preferences) {
                Seq::empty()
            } else {
                "User preferences:\n"@ + text::trimmed(preferences) + "\n\n"@
            };
            let running = if text::blank(model_label) {
                Seq::empty()
            } else {
                "\n\nYou are currently running as the model \""@ + text::trimmed(model_label)
                    + "\"."@
            };
            let block = memory::context_of(m);
            let last = if text::blank(block) {
                Seq::empty()
            } else {
                "\n\n"@ + block
            };
            prompt_of(base, model_label, preferences, m) == first + text::trimmed(base) + running
                + last
        }),
{
    let parts = prompt_parts(base, model_label, preferences);
    let sep = "\n\n"@;
    let b = text::trimmed(base);
    let p = "User preferences:\n"@ + text::trimmed(preferences);
    let l = "You are currently running as the model \""@ + text::trimmed(model_label) + "\"."@;
    reveal_strlit("\n\n");
    reveal_strlit("You are currently running as the model \"");
    reveal_strlit("\n\nYou are currently running as the model \"");
    assert("\n\nYou are currently running as the model \""@ =~= "\n\n"@
        + "You are currently running as the model \""@);
    reveal_with_fuel(text::joined, 4);
    if text::blank(preferences) && text::blank(model_label) {
        assert(parts =~= seq![b]);
    } else if text::blank(preferences) {
        assert(parts =~= seq![b, l]);
        assert(parts.drop_last() =~= seq![b]);
    } else if text::blank(model_label) {
        assert(parts =~= seq![p, b]);
        assert(parts.drop_last() =~= seq![p]);
    } else {
        assert(parts =~= seq![p, b, l]);
        assert(parts.drop_last() =~= seq![p, b]);
        assert(parts.drop_last().drop_last() =~= seq![p]);
    }
    let first = if text::blank(preferences) {
        Seq::empty()
    } else {
        p + "\n\n"@
    };
    let running = if text::blank(model_label) {
        Seq::empty()
    } else {
        "\n\nYou are currently running as the model \""@ + text::trimmed(model_label) + "\"."@
    };
    assert(text::joined(parts, sep) =~= first + b + running);
    let block = memory::context_of(m);
    let last = if text::blank(block) {
        Seq::empty()
    } else {
        "\n\n"@ + block
    };
    assert(prompt_of(base, model_label, preferences, m) =~= first + b + running + last);
}

/// A stored call is told again with its id, its name and its arguments; one that was stored
/// without arguments is told with an empty object of them.
pub proof fn law_stored_call_is_told_again(v: JsonView, a: JsonView)
    ensures
        json::member(v, "arguments"@) == Some(a) ==> call_again(v).arguments == json::written(a),
        json::member(v, "arguments"@) is None ==> call_again(v).arguments == "{}"@,
        call_again(v).id == json::member_text_or_empty(v, "id"@),
        call_again(v).name == json::member_text_or_empty(v, "name"@),
{
}

} // verus!
