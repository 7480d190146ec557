use pi_chat::attachments::Attachment;
use pi_chat::config::{AppConfig, ModelOverride};
use pi_chat::db::{message_row, MessageRow, NewMessage};
use pi_chat::json;
use pi_chat::json::Json;
use pi_chat::memory::MemoryState;
use pi_chat::pricing::{bill, resolve_with_cache, Rate};
use pi_chat::request::{
    build_messages, build_system_prompt, completion_body, completions_url, encode_tool_calls,
    encode_tool_result, message_document, replay_assistant, replay_tool, tool_document,
    user_request_message, RequestMessage, DEFAULT_SYSTEM_PROMPT,
};
use pi_chat::round::{
    apply_chunk, error_message, process_event, Arrival, Completion, Next, Round, RoundAccum,
};
use pi_chat::sse::{event_payload, take_first_event};
use pi_chat::stream::{event_document, StreamEvent, StreamRegistry};
use pi_chat::tools::{tool_specs, ApprovalRegistry, HostAction, ToolCall, ToolOutput};
use pi_chat::turn::{
    conversation_not_found, ready, request_failed_text, request_refused_text, tool_action,
    user_row, Phase, Setup, ToolAction, Turn,
};
use pi_chat::usage::{can_sum, sum_usage, track_context};

fn doc(text: &str) -> Json {
    json::parse(text).unwrap()
}

fn memory() -> MemoryState {
    match MemoryState::load(Vec::new(), "absent".to_string()) {
        Ok(m) => m,
        Err(e) => panic!("{e}"),
    }
}

fn delta_chunk(content: &str) -> String {
    format!(
        r#"{{"id":"1","object":"chat.completion.chunk","created":1,"model":"mock","choices":[{{"index":0,"delta":{{"role":"assistant","content":"{content}"}},"finish_reason":null}}]}}"#
    )
}

fn reasoning_chunk(reasoning: &str) -> String {
    format!(
        r#"{{"id":"1","object":"chat.completion.chunk","created":1,"model":"mock","choices":[{{"index":0,"delta":{{"reasoning_content":"{reasoning}"}},"finish_reason":null}}]}}"#
    )
}

fn finish_chunk(reason: &str) -> String {
    format!(
        r#"{{"id":"1","object":"chat.completion.chunk","created":1,"model":"mock","choices":[{{"index":0,"delta":{{}},"finish_reason":"{reason}"}}]}}"#
    )
}

fn usage_chunk() -> String {
    r#"{"id":"1","object":"chat.completion.chunk","created":1,"model":"mock","choices":[],"usage":{"prompt_tokens":3,"completion_tokens":2,"total_tokens":5}}"#.to_string()
}

fn tool_frag(index: u32, id: &str, name: &str, args: &str) -> String {
    let id_json = if id.is_empty() { "null".to_string() } else { format!("\"{id}\"") };
    let name_json = if name.is_empty() { "null".to_string() } else { format!("\"{name}\"") };
    format!(
        r#"{{"id":"1","object":"chat.completion.chunk","created":1,"model":"mock","choices":[{{"index":0,"delta":{{"tool_calls":[{{"index":{index},"id":{id_json},"type":"function","function":{{"name":{name_json},"arguments":"{args}"}}}}]}},"finish_reason":null}}]}}"#
    )
}

fn body_of(chunks: &[String]) -> String {
    let mut body = String::new();
    for c in chunks {
        body.push_str(&format!("data: {c}\n\n"));
    }
    body.push_str("data: [DONE]\n\n");
    body
}

/// Runs a completion over a body that arrives in pieces of `size` bytes; `stop` says
/// after each step whether the stream is cancelled.
fn complete(
    body: &str,
    size: usize,
    events: &mut Vec<StreamEvent>,
    stop: fn(&[StreamEvent]) -> bool,
) -> RoundAccum {
    let mut c = Completion::new();
    let mut pieces = body.as_bytes().chunks(size);
    loop {
        let cancelled = stop(events);
        match c.step(cancelled, events) {
            Next::Step => {}
            Next::Finish => break,
            Next::Read => match pieces.next() {
                Some(p) => c.receive(Arrival::Bytes(p.to_vec()), events),
                None => c.receive(Arrival::Closed, events),
            },
        }
    }
    c.finish()
}

fn never(_: &[StreamEvent]) -> bool {
    false
}

fn complete_once(chunks: &[String]) -> RoundAccum {
    complete(&body_of(chunks), 4096, &mut Vec::new(), never)
}

fn config() -> AppConfig {
    AppConfig {
        base_url: "http://127.0.0.1:1/v1".to_string(),
        model: "mock".to_string(),
        ..Default::default()
    }
}

fn setup(content: &str, history: Vec<MessageRow>, attachments: Vec<Attachment>) -> Setup {
    Setup {
        conversation_id: "conv".to_string(),
        system_prompt: None,
        model_name: None,
        history,
        attached: Vec::new(),
        content: content.to_string(),
        attachments,
        web_search: false,
    }
}

/// What a turn did: the rows that were stored, the events and the requests.
struct Trace {
    rows: Vec<NewMessage>,
    events: Vec<StreamEvent>,
    requests: Vec<String>,
}

/// Plays a turn against scripted replies; every gated call gets the verdict `approve`, and
/// the host's tools answer `hi`.
fn play(cfg: &AppConfig, setup: Setup, replies: Vec<Vec<String>>, approve: bool) -> Trace {
    let mut t = Trace { rows: Vec::new(), events: Vec::new(), requests: Vec::new() };
    t.rows.push(user_row(cfg, &setup.conversation_id, &setup.content, None));
    let mut turn = Turn::begin(setup, cfg, &memory());
    let mut replies = replies.into_iter();
    loop {
        match turn.phase() {
            Phase::Ask => {
                t.requests.push(json::to_text(&turn.body()));
                let chunks = replies.next().expect("a reply");
                let acc = complete(&body_of(&chunks), 64, &mut t.events, never);
                assert!(turn.can_count(&acc));
                turn.round_done(acc, false, &mut t.rows);
            }
            Phase::Call(_) => {
                let call = turn.next_call(&mut t.events);
                let output = match tool_action(&call, Some(approve)) {
                    ToolAction::Answer { output } => output,
                    _ => ToolOutput::ok("hi".to_string()),
                };
                let row = turn.call_done(output, false, &mut t.events);
                t.rows.push(row);
            }
            Phase::Over(_) => break,
        }
    }
    let cost = turn.billed_usage().and_then(|usage| {
        let pricing = resolve_with_cache(&cfg.model, cfg, None);
        bill(usage, &pricing).map(|b| {
            let dollars = |r: Rate| match r {
                Rate::Cents(c) => c as f64 / 100.0,
                Rate::Double(bits) => f64::from_bits(bits),
            };
            let sum = b.uncached as f64 * dollars(b.input_rate)
                + b.cached as f64 * dollars(b.cache_read_rate)
                + b.cache_write as f64 * dollars(b.cache_write_rate)
                + b.completion as f64 * dollars(b.output_rate);
            Json::Number(serde_json::Number::from_f64(sum / 1_000_000.0).unwrap())
        })
    });
    let row = turn.finish(cost, &mut t.events);
    t.rows.push(row);
    t
}

fn value(text: &str) -> serde_json::Value {
    serde_json::from_str(text).unwrap()
}

fn is_tool_call_message(m: &serde_json::Value) -> bool {
    m["role"] == "assistant" && m.get("tool_calls").is_some()
}

fn bash_round() -> Vec<String> {
    vec![
        tool_frag(0, "call_1", "bash", ""),
        tool_frag(0, "", "", r#"{\"command\":\"echo hi\"}"#),
        finish_chunk("tool_calls"),
    ]
}

fn as_history(rows: Vec<NewMessage>) -> Vec<MessageRow> {
    let mut last = None;
    let mut out = Vec::new();
    for r in rows {
        let row = message_row(r, "id".to_string(), last, 0);
        last = Some(row.index);
        out.push(row);
    }
    out
}

// ---------- rounds ----------

#[test]
fn run_completion_emits_deltas_and_usage() {
    let acc = complete_once(&[
        delta_chunk("Hello"),
        delta_chunk(" world"),
        finish_chunk("stop"),
        usage_chunk(),
    ]);
    assert!(!acc.failed);
    assert_eq!(acc.text, "Hello world");
    assert_eq!(acc.finish.as_deref(), Some("stop"));
    assert_eq!(acc.usage.unwrap().get_i64("total_tokens"), Some(5));
}

#[test]
fn run_completion_captures_reasoning_field() {
    let acc = complete_once(&[
        reasoning_chunk("Let me think. "),
        delta_chunk("Hello"),
        finish_chunk("stop"),
    ]);
    assert_eq!(acc.text, "Hello");
    assert_eq!(acc.thinking, "Let me think. ");
}

#[test]
fn run_completion_accumulates_tool_call_fragments() {
    let acc = complete_once(&[
        tool_frag(0, "call_1", "bash", ""),
        tool_frag(0, "", "", r#"{\"command\":\"ls\"}"#),
        finish_chunk("tool_calls"),
    ]);
    assert!(!acc.failed);
    assert!(acc.text.is_empty());
    assert_eq!(acc.finish.as_deref(), Some("tool_calls"));
    assert_eq!(acc.tool_calls.len(), 1);
    assert_eq!(acc.tool_calls[0].id, "call_1");
    assert_eq!(acc.tool_calls[0].name, "bash");
    assert_eq!(acc.tool_calls[0].arguments.get_str("command"), Some("ls"));
}

#[test]
fn calls_come_in_the_order_of_their_indices() {
    let acc = complete_once(&[
        tool_frag(3, "", "b", "{"),
        tool_frag(1, "x", "a", r#"{\"k\":1}"#),
        tool_frag(3, "", "", "oops"),
        finish_chunk("tool_calls"),
    ]);
    assert_eq!(acc.tool_calls.len(), 2);
    assert_eq!(acc.tool_calls[0].id, "x");
    assert_eq!(acc.tool_calls[0].arguments.get_i64("k"), Some(1));
    assert_eq!(acc.tool_calls[1].id, "call_3");
    assert_eq!(acc.tool_calls[1].name, "b");
    assert_eq!(json::to_text(&acc.tool_calls[1].arguments), "{}");
}

#[test]
fn run_completion_flushes_unterminated_final_event() {
    // The body ends without a trailing blank line and without `[DONE]`; the
    // final delta must still be emitted rather than dropped.
    let body = format!("data: {}", delta_chunk("tail"));
    let mut events = Vec::new();
    let acc = complete(&body, 4096, &mut events, never);
    assert!(!acc.failed);
    assert_eq!(acc.text, "tail");
    assert!(events.iter().any(|e| matches!(e, StreamEvent::Delta { text } if text == "tail")));
}

#[test]
fn run_completion_reports_mid_stream_error_and_keeps_partial() {
    let body = body_of(&[
        delta_chunk("Partial"),
        r#"{"error":{"message":"boom","type":"server_error"}}"#.to_string(),
    ]);
    let mut events = Vec::new();
    let acc = complete(&body, 4096, &mut events, never);

    assert!(acc.failed);
    assert_eq!(acc.text, "Partial");
    assert!(events
        .iter()
        .any(|e| matches!(e, StreamEvent::Error { message } if message.contains("boom"))));
    assert!(events.iter().any(|e| matches!(e, StreamEvent::Delta { text } if text == "Partial")));
}

#[test]
fn a_failure_of_the_network_keeps_partial() {
    let mut events = Vec::new();
    let mut c = Completion::new();
    let bytes = format!("data: {}\n\n", delta_chunk("Part")).into_bytes();
    c.receive(Arrival::Bytes(bytes), &mut events);
    assert_eq!(c.step(false, &mut events), Next::Step);
    assert_eq!(c.step(false, &mut events), Next::Read);
    c.receive(Arrival::Failed("reset".to_string()), &mut events);
    assert_eq!(c.step(false, &mut events), Next::Finish);
    let acc = c.finish();
    assert!(acc.failed);
    assert_eq!(acc.text, "Part");
    assert!(
        matches!(events.last(), Some(StreamEvent::Error { message }) if message == "stream error: reset")
    );
}

#[test]
fn apply_chunk_treats_string_error_as_fatal() {
    let mut out = Round::new();
    let mut events = Vec::new();
    let stop = apply_chunk(&mut out, &doc(r#"{"error": "plain boom"}"#), &mut events);
    assert!(stop);
    assert!(out.failed);
    assert!(events
        .iter()
        .any(|e| matches!(e, StreamEvent::Error { message } if message == "plain boom")));
}

#[test]
fn apply_chunk_reads_content_parts() {
    let mut out = Round::new();
    let mut events = Vec::new();
    let chunk = doc(
        r#"{"choices":[{"delta":{"content":[
            {"type":"text","text":"a"},
            {"type":"thinking","thinking":"t"},
            {"type":"reasoning","text":"u","thinking":"no"},
            {"type":"output_text","text":"b"},
            {"type":"image"},
            {"text":"no kind"}
        ]}}]}"#,
    );
    assert!(!apply_chunk(&mut out, &chunk, &mut events));
    assert_eq!(out.text, "ab");
    assert_eq!(out.thinking, "tu");
    assert_eq!(events.len(), 4);
}

#[test]
fn apply_chunk_stops_on_a_finish_reason_of_error() {
    let mut out = Round::new();
    let mut events = Vec::new();
    let chunk = doc(r#"{"choices":[{"finish_reason":"error","delta":{"content":"x"}}]}"#);
    assert!(apply_chunk(&mut out, &chunk, &mut events));
    assert!(out.failed);
    assert_eq!(out.text, "");
    assert!(
        matches!(&events[0], StreamEvent::Error { message } if message == "provider error")
    );
    let mut out = Round::new();
    let chunk = doc(r#"{"error":null,"usage":null,"choices":[{"finish_reason":""}]}"#);
    assert!(!apply_chunk(&mut out, &chunk, &mut events));
    assert_eq!(out.finish, None);
    assert!(out.usage.is_none());
}

#[test]
fn events_that_are_no_json_are_passed_over() {
    let mut out = Round::new();
    let mut events = Vec::new();
    assert!(!process_event(&mut out, "not json", &mut events));
    assert!(process_event(&mut out, "  [DONE] ", &mut events));
    assert!(events.is_empty());
}

#[test]
fn error_messages() {
    assert_eq!(error_message(&doc(r#""plain""#)), "plain");
    assert_eq!(error_message(&doc(r#"{"message":"m","code":1}"#)), "m");
    assert_eq!(error_message(&doc(r#"{"code":1,"a":[true]}"#)), r#"{"a":[true],"code":1}"#);
}

#[test]
fn run_completion_honors_abort_between_fast_events() {
    // Deltas arrive back-to-back, so the flag must be honored between events.
    let body = body_of(&[
        delta_chunk("one"),
        delta_chunk("two"),
        delta_chunk("three"),
        finish_chunk("stop"),
    ]);
    let mut events = Vec::new();
    let acc = complete(&body, 4096, &mut events, |e| {
        e.iter().any(|e| matches!(e, StreamEvent::Delta { .. }))
    });
    assert_eq!(acc.text, "one");
    assert_eq!(acc.finish, None);
}

#[test]
fn pieces_make_no_difference() {
    let body = body_of(&[
        reasoning_chunk("hm "),
        delta_chunk("Grüße"),
        tool_frag(0, "c", "bash", ""),
        finish_chunk("stop"),
        usage_chunk(),
    ]);
    let whole = complete(&body, body.len(), &mut Vec::new(), never);
    for size in [1, 2, 3, 7, 50] {
        let acc = complete(&body, size, &mut Vec::new(), never);
        assert_eq!(acc.text, whole.text);
        assert_eq!(acc.thinking, whole.thinking);
        assert_eq!(acc.finish, whole.finish);
        assert_eq!(acc.tool_calls.len(), 1);
    }
    assert_eq!(whole.text, "Grüße");
}

// ---------- events ----------

#[test]
fn take_first_event_handles_lf_and_crlf() {
    let mut buf = b"data: {\"a\":1}\n\n".to_vec();
    assert_eq!(take_first_event(&mut buf).as_deref(), Some(r#"{"a":1}"#));
    assert!(buf.is_empty());

    let mut buf = b"data: one\r\ndata: two\r\n\r\n".to_vec();
    assert_eq!(take_first_event(&mut buf).as_deref(), Some("one\ntwo"));
    assert!(buf.is_empty());
}

#[test]
fn take_first_event_waits_for_the_empty_line() {
    let mut buf = b"data: one\n".to_vec();
    assert_eq!(take_first_event(&mut buf), None);
    assert_eq!(buf, b"data: one\n".to_vec());
    let mut buf = b"data: a\n\ndata: b\n\nrest".to_vec();
    assert_eq!(take_first_event(&mut buf).as_deref(), Some("a"));
    assert_eq!(take_first_event(&mut buf).as_deref(), Some("b"));
    assert_eq!(buf, b"rest".to_vec());
    let mut buf = b": ping\n\ndata: x\n\n".to_vec();
    assert_eq!(take_first_event(&mut buf).as_deref(), Some("x"));
    assert!(buf.is_empty());
    let mut buf = b": ping\n\nid: 1\n\ndata: y".to_vec();
    assert_eq!(take_first_event(&mut buf), None);
    assert_eq!(buf, b"data: y".to_vec());
}

#[test]
fn comments_between_events_lose_nothing() {
    let body = format!(
        ": p\n\n: p\n\ndata: {}\n\ndata: {}\n\n",
        delta_chunk("A"),
        delta_chunk("B")
    );
    for size in [1, 3, 7, 4096] {
        let mut events = Vec::new();
        let acc = complete(&body, size, &mut events, never);
        assert!(!acc.failed);
        assert_eq!(acc.text, "AB");
        let told: Vec<&str> = events
            .iter()
            .map(|e| match e {
                StreamEvent::Delta { text } => text.as_str(),
                _ => "?",
            })
            .collect();
        assert_eq!(told, ["A", "B"]);
    }
}

#[test]
fn bytes_that_are_no_utf8_are_replaced() {
    let mut buf = b"data: \xff!\n\n".to_vec();
    assert_eq!(take_first_event(&mut buf).as_deref(), Some("\u{fffd}!"));
    let mut buf = "data: süß\n\n".as_bytes().to_vec();
    assert_eq!(take_first_event(&mut buf).as_deref(), Some("süß"));
}

#[test]
fn payloads_of_events() {
    assert_eq!(event_payload("event: x\ndata:a\ndata:  b\r").as_deref(), Some("a\n b"));
    assert_eq!(event_payload("event: x"), None);
    assert_eq!(event_payload("data:").as_deref(), Some(""));
}

#[test]
fn stream_events_serialize_camel_case_fields() {
    let tool_call = value(&json::to_text(&event_document(&StreamEvent::ToolCall {
        call_id: "call_1".into(),
        name: "bash".into(),
        arguments: "{}".into(),
        gated: true,
    })));
    assert_eq!(tool_call["type"], "toolCall");
    assert_eq!(tool_call["callId"], "call_1");
    assert_eq!(tool_call["gated"], true);

    let tool_result = value(&json::to_text(&event_document(&StreamEvent::ToolResult {
        call_id: "call_1".into(),
        name: "bash".into(),
        ok: true,
        output: "hi".into(),
    })));
    assert_eq!(tool_result["callId"], "call_1");

    let done = value(&json::to_text(&event_document(&StreamEvent::Done {
        stop_reason: "stop".into(),
    })));
    assert_eq!(done["stopReason"], "stop");
}

#[test]
fn every_event_has_its_document() {
    let text = |e: StreamEvent| json::to_text(&event_document(&e));
    assert_eq!(text(StreamEvent::Delta { text: "a".into() }), r#"{"text":"a","type":"delta"}"#);
    assert_eq!(
        text(StreamEvent::ThinkingDelta { text: "a".into() }),
        r#"{"text":"a","type":"thinkingDelta"}"#
    );
    assert_eq!(
        text(StreamEvent::Error { message: "m".into() }),
        r#"{"message":"m","type":"error"}"#
    );
}

// ---------- usage ----------

#[test]
fn sum_usage_normalizes_cached_tokens_across_shapes() {
    let mut total = doc("{}");
    // OpenAI-shape nested details.
    sum_usage(
        &mut total,
        &Some(doc(
            r#"{
            "prompt_tokens": 100,
            "completion_tokens": 10,
            "total_tokens": 110,
            "prompt_tokens_details": { "cached_tokens": 40 }
        }"#,
        )),
    );
    assert_eq!(total.get_i64("prompt_tokens"), Some(100));
    assert_eq!(total.get_i64("cached_tokens"), Some(40));

    // Anthropic-shape flat key, summed with the previous round.
    sum_usage(
        &mut total,
        &Some(doc(r#"{ "prompt_tokens": 50, "cache_read_input_tokens": 5 }"#)),
    );
    assert_eq!(total.get_i64("prompt_tokens"), Some(150));
    assert_eq!(total.get_i64("cached_tokens"), Some(45));
}

#[test]
fn usage_adds_up_and_tracks_the_context() {
    let mut total = doc("{}");
    let a = doc(
        r#"{"prompt_tokens":7,"completion_tokens":1,"total_tokens":8,"prompt_cache_hit_tokens":2,
            "cache_creation_input_tokens":3}"#,
    );
    let b = doc(r#"{"prompt_tokens":9,"completion_tokens":4,"total_tokens":13}"#);
    for round in [a, b] {
        assert!(can_sum(&total, &round));
        let round = Some(round);
        sum_usage(&mut total, &round);
        track_context(&mut total, &round);
    }
    assert_eq!(
        json::to_text(&total),
        r#"{"cache_write_tokens":3,"cached_tokens":2,"completion_tokens":5,"context_tokens":13,"prompt_tokens":16,"total_tokens":21}"#
    );
    let before = json::to_text(&total);
    sum_usage(&mut total, &None);
    track_context(&mut total, &Some(doc(r#"{"total_tokens":4}"#)));
    assert_eq!(json::to_text(&total), before);
    let huge = doc(r#"{"total_tokens":9223372036854775807}"#);
    assert!(!can_sum(&total, &huge));
}

// ---------- prompts and requests ----------

#[test]
fn build_system_prompt_orders_preferences_base_model_and_memory() {
    let mut memory = memory();
    memory
        .save_entry("User prefers dark mode.", None, Some("preference"), 3, "conv_p")
        .unwrap();
    let prompt = build_system_prompt("BASE", "DeepSeek V4 Pro", "Talk like a pirate.", &memory);
    assert!(prompt.starts_with("User preferences:\nTalk like a pirate."));
    assert!(prompt.contains("BASE"));
    assert!(prompt.contains("running as the model \"DeepSeek V4 Pro\""));
    assert!(prompt.contains("Long-term memory"));
    assert!(prompt.contains("preferences.md"));
    assert!(prompt.contains("User prefers dark mode"));
    // Preferences come before the base prompt, and the model line after it.
    assert!(prompt.find("Talk like a pirate").unwrap() < prompt.find("BASE").unwrap());
    assert!(prompt.find("BASE").unwrap() < prompt.find("running as the model").unwrap());
}

#[test]
fn build_system_prompt_omits_empty_preferences() {
    let memory = memory();
    let prompt = build_system_prompt("BASE", "mock", "   ", &memory);
    assert!(prompt.starts_with("BASE"));
    assert!(!prompt.contains("User preferences"));
}

#[test]
fn prompt_without_memory() {
    let none = MemoryState::at(Vec::new(), "absent".to_string());
    assert_eq!(
        build_system_prompt(" B ", "m", "p", &none),
        "User preferences:\np\n\nB\n\nYou are currently running as the model \"m\"."
    );
    assert_eq!(build_system_prompt("B", " ", "", &none), "B");
}

#[test]
fn request_has_its_form() {
    let messages = build_messages("p", &Vec::new(), &Vec::new(), "hi", &Vec::new());
    let body = completion_body("mock", &messages, &Vec::new(), " high ", Some("ignored"));
    assert_eq!(
        json::to_text(&body),
        r#"{"messages":[{"content":"p","role":"system"},{"content":"hi","role":"user"}],"model":"mock","reasoning_effort":"high","stream":true,"stream_options":{"include_usage":true},"tools":[]}"#
    );
    let body = completion_body("mock", &messages, &tool_specs(false), "default", None);
    let body = value(&json::to_text(&body));
    assert!(body.get("reasoning_effort").is_none());
    assert_eq!(body["tools"][0]["type"], "function");
    assert_eq!(body["tools"][0]["function"]["name"], "bash");
    assert_eq!(
        body["tools"][2]["function"]["parameters"]["required"],
        serde_json::Value::from(vec!["path", "content"])
    );
    assert_eq!(completions_url("http://x/v1//"), "http://x/v1/chat/completions");
    assert_eq!(
        json::to_text(&tool_document(&tool_specs(false)[4])),
        r#"{"function":{"description":"Read the full contents of a long-term memory file on demand, such as preferences.md, identity.md, goals.md, notes.md, or index.md.","name":"read_memory","parameters":{"properties":{"path":{"description":"Memory file name, e.g. preferences.md","type":"string"}},"required":["path"],"type":"object"}},"type":"function"}"#
    );
}

#[test]
fn messages_have_their_form() {
    let text = |m: RequestMessage| json::to_text(&message_document(&m));
    assert_eq!(
        text(RequestMessage::Assistant { content: "a".into() }),
        r#"{"content":"a","role":"assistant"}"#
    );
    assert_eq!(
        text(RequestMessage::Tool { content: "o".into(), call_id: "c".into() }),
        r#"{"content":"o","role":"tool","tool_call_id":"c"}"#
    );
    assert_eq!(
        text(replay_assistant(
            "",
            &Some(doc(r#"{"tool_calls":[{"id":"i","name":"n","arguments":{"b":1,"a":2}},{}]}"#))
        )),
        r#"{"role":"assistant","tool_calls":[{"function":{"arguments":"{\"a\":2,\"b\":1}","name":"n"},"id":"i","type":"function"},{"function":{"arguments":"{}","name":""},"id":"","type":"function"}]}"#
    );
}

#[test]
fn attachments_go_with_what_the_user_says() {
    let file = |name: &str, text: &str| Attachment {
        id: "a".into(),
        name: name.into(),
        mime: "text/plain".into(),
        size: 1,
        kind: "file".into(),
        data_url: None,
        text: Some(text.into()),
    };
    let image = Attachment {
        id: "b".into(),
        name: "p.png".into(),
        mime: "image/png".into(),
        size: 1,
        kind: "image".into(),
        data_url: Some("data:x".into()),
        text: None,
    };
    match user_request_message("look", &vec![file("a.txt", "A"), file("b.txt", " ")]) {
        RequestMessage::User { content } => assert_eq!(content, "look\n\n--- File: a.txt ---\nA"),
        _ => panic!("parts"),
    }
    let m = user_request_message("", &vec![image.clone()]);
    assert_eq!(
        json::to_text(&message_document(&m)),
        r#"{"content":[{"image_url":{"url":"data:x"},"type":"image_url"}],"role":"user"}"#
    );
    let m = user_request_message(" ", &vec![file("a.txt", "A"), image]);
    assert_eq!(
        json::to_text(&message_document(&m)),
        r#"{"content":[{"text":" --- File: a.txt ---\nA","type":"text"},{"image_url":{"url":"data:x"},"type":"image_url"}],"role":"user"}"#
    );
}

#[test]
fn stored_calls_and_outputs_are_replayed() {
    let calls = vec![ToolCall {
        id: "c1".into(),
        name: "bash".into(),
        arguments: doc(r#"{"command":"ls","n":[1,-2]}"#),
    }];
    let stored = encode_tool_calls(&calls);
    assert_eq!(
        stored,
        r#"{"tool_calls":[{"arguments":{"command":"ls","n":[1,-2]},"id":"c1","name":"bash"}]}"#
    );
    match replay_assistant(&stored, &json::parse(&stored)) {
        RequestMessage::AssistantCalls { calls } => {
            assert_eq!(calls.len(), 1);
            assert_eq!(calls[0].id, "c1");
            assert_eq!(calls[0].arguments, r#"{"command":"ls","n":[1,-2]}"#);
        }
        _ => panic!("no calls"),
    }
    let output = ToolOutput::err("no \"luck\"".to_string());
    let stored = encode_tool_result("c1", "bash", &output);
    assert_eq!(
        stored,
        r#"{"error":true,"name":"bash","output":"no \"luck\"","tool_call_id":"c1"}"#
    );
    match replay_tool(&stored, &json::parse(&stored)) {
        RequestMessage::Tool { content, call_id } => {
            assert_eq!((content.as_str(), call_id.as_str()), ("no \"luck\"", "c1"));
        }
        _ => panic!("no output"),
    }
    match replay_tool("odd", &json::parse("odd")) {
        RequestMessage::Tool { content, call_id } => {
            assert_eq!((content.as_str(), call_id.as_str()), ("odd", "unknown"));
        }
        _ => panic!("no output"),
    }
}

// ---------- turns ----------

#[test]
fn loop_persists_user_and_assistant_message() {
    let t = play(
        &config(),
        setup("hi", Vec::new(), Vec::new()),
        vec![vec![delta_chunk("Hello"), finish_chunk("stop"), usage_chunk()]],
        true,
    );
    let rows = &t.rows;
    assert_eq!(rows.len(), 2);
    assert_eq!(rows[0].role, "user");
    assert_eq!(rows[0].content, "hi");
    assert_eq!(rows[1].role, "assistant");
    assert_eq!(rows[1].content, "Hello");
    assert_eq!(rows[1].stop_reason.as_deref(), Some("stop"));
    let usage = value(rows[1].usage.as_deref().unwrap());
    assert_eq!(usage["total_tokens"], 5);
    // Context size is the last round's prompt+completion (3 + 2).
    assert_eq!(usage["context_tokens"], 5);

    let texts: Vec<String> = t
        .events
        .iter()
        .filter_map(|e| match e {
            StreamEvent::Delta { text } => Some(text.clone()),
            _ => None,
        })
        .collect();
    assert_eq!(texts, vec!["Hello".to_string()]);
    assert!(
        matches!(t.events.last(), Some(StreamEvent::Done { stop_reason }) if stop_reason == "stop")
    );
}

#[test]
fn loop_sends_preferences_and_model_in_system_prompt() {
    let cfg = AppConfig { preferences: "Talk like me.".into(), ..config() };
    let t = play(
        &cfg,
        setup("hi", Vec::new(), Vec::new()),
        vec![vec![delta_chunk("ok"), finish_chunk("stop")]],
        true,
    );
    let request = &t.requests[0];
    assert!(request.contains("User preferences:"));
    assert!(request.contains("Talk like me."));
    assert!(request.contains("running as the model"));
    assert!(request.contains("mock"));
    assert!(request.contains(DEFAULT_SYSTEM_PROMPT));
}

#[test]
fn loop_persists_and_sends_attachments() {
    let attachments = vec![
        Attachment {
            id: "a1".into(),
            name: "notes.txt".into(),
            mime: "text/plain".into(),
            size: 5,
            kind: "file".into(),
            data_url: None,
            text: Some("hello".into()),
        },
        Attachment {
            id: "a2".into(),
            name: "pic.png".into(),
            mime: "image/png".into(),
            size: 4,
            kind: "image".into(),
            data_url: Some("data:image/png;base64,AAECAw==".into()),
            text: None,
        },
    ];
    // Persisted on the user row.
    let row = user_row(&config(), "conv", "look", Some("[1]".to_string()));
    assert_eq!(row.attachments.as_deref(), Some("[1]"));

    // Sent upstream: text file folded into content, image as a part.
    let t = play(
        &config(),
        setup("look", Vec::new(), attachments),
        vec![vec![delta_chunk("ok"), finish_chunk("stop")]],
        true,
    );
    let request = &t.requests[0];
    assert!(request.contains("--- File: notes.txt ---"));
    assert!(request.contains("hello"));
    assert!(request.contains("image_url"));
    assert!(request.contains("AAECAw=="));
}

#[test]
fn loop_stores_frozen_turn_cost() {
    let mut cfg = config();
    // Give "mock" rates so the turn's cost can be resolved and frozen.
    cfg.model_overrides.push((
        "mock".into(),
        ModelOverride {
            context_window: None,
            input_per_million: Some(Rate::Double(1.0f64.to_bits())),
            output_per_million: Some(Rate::Double(2.0f64.to_bits())),
            cache_read_per_million: None,
            cache_write_per_million: None,
        },
    ));
    let t = play(
        &cfg,
        setup("hi", Vec::new(), Vec::new()),
        vec![vec![delta_chunk("Hello"), finish_chunk("stop"), usage_chunk()]],
        true,
    );
    let usage = value(t.rows[1].usage.as_deref().unwrap());
    // 3 input @ $1/M + 2 output @ $2/M.
    assert!((usage["cost"].as_f64().unwrap() - 7e-6).abs() < 1e-12);
}

#[test]
fn loop_persists_reasoning_trace_with_assistant_message() {
    let t = play(
        &config(),
        setup("q", Vec::new(), Vec::new()),
        vec![vec![
            reasoning_chunk("I should check. "),
            delta_chunk("Answer"),
            finish_chunk("stop"),
        ]],
        true,
    );
    assert_eq!(t.rows.len(), 2);
    assert_eq!(t.rows[1].thinking.as_deref(), Some("I should check. "));
    assert_eq!(t.rows[1].content, "Answer");
    assert!(t.events.iter().any(|e| matches!(
        e,
        StreamEvent::ThinkingDelta { text } if text == "I should check. "
    )));
}

#[test]
fn loop_runs_gated_tool_then_final_answer() {
    let t = play(
        &config(),
        setup("run echo hi", Vec::new(), Vec::new()),
        vec![
            bash_round(),
            vec![delta_chunk("All done"), finish_chunk("stop"), usage_chunk()],
        ],
        true,
    );
    let rows = &t.rows;
    assert_eq!(rows.len(), 4);
    assert_eq!(rows[0].role, "user");
    assert_eq!(rows[1].role, "assistant");
    let tc = value(&rows[1].content);
    assert_eq!(tc["tool_calls"][0]["name"], "bash");
    assert_eq!(rows[2].role, "tool");
    let tr = value(&rows[2].content);
    assert_eq!(tr["tool_call_id"], "call_1");
    assert_eq!(tr["error"], false);
    assert_eq!(tr["output"], "hi");
    assert_eq!(rows[3].role, "assistant");
    assert_eq!(rows[3].content, "All done");
    assert_eq!(rows[3].stop_reason.as_deref(), Some("stop"));
    let usage = value(rows[3].usage.as_deref().unwrap());
    assert_eq!(usage["total_tokens"], 5);

    assert!(t.events.iter().any(|e| matches!(e, StreamEvent::ToolCall { gated: true, .. })));
    assert!(t.events.iter().any(|e| matches!(
        e,
        StreamEvent::ToolResult { ok: true, output, .. } if output == "hi"
    )));
    assert!(t.events.iter().any(|e| matches!(e, StreamEvent::Delta { text } if text == "All done")));
    assert!(
        matches!(t.events.last(), Some(StreamEvent::Done { stop_reason }) if stop_reason == "stop")
    );
}

fn reasoned_rounds() -> Vec<Vec<String>> {
    let mut first = bash_round();
    first.insert(0, reasoning_chunk("I should check. "));
    vec![first, vec![delta_chunk("All done"), finish_chunk("stop"), usage_chunk()]]
}

#[test]
fn loop_echoes_reasoning_on_tool_call_message_within_turn() {
    let t = play(&config(), setup("run echo hi", Vec::new(), Vec::new()), reasoned_rounds(), true);
    assert_eq!(t.requests.len(), 2);
    // The first request has no tool-call assistant message yet.
    assert!(!t.requests[0].contains("reasoning_content"));

    let second = value(&t.requests[1]);
    let msgs = second["messages"].as_array().unwrap();
    let tool_call = msgs
        .iter()
        .find(|m| is_tool_call_message(m))
        .expect("assistant tool-call message");
    assert_eq!(tool_call["reasoning_content"], "I should check. ");
}

#[test]
fn loop_replay_does_not_resend_previous_turn_reasoning() {
    // First turn: a tool round whose reasoning is persisted on the row.
    let t = play(&config(), setup("run echo hi", Vec::new(), Vec::new()), reasoned_rounds(), true);
    assert!(t.rows.iter().any(|r| r.thinking.as_deref() == Some("I should check. ")));

    // Second turn: a fresh user message replays the tool-call history.
    let t2 = play(
        &config(),
        setup("again", as_history(t.rows), Vec::new()),
        vec![vec![delta_chunk("Second"), finish_chunk("stop")]],
        true,
    );
    assert_eq!(t2.requests.len(), 1);
    let replayed = value(&t2.requests[0]);
    let msgs = replayed["messages"].as_array().unwrap();
    // The tool-call row is replayed, but without its reasoning trace.
    assert!(msgs.iter().any(is_tool_call_message));
    assert!(!replayed.to_string().contains("reasoning_content"));
}

#[test]
fn loop_reasoning_echo_can_be_disabled() {
    let cfg = AppConfig { echo_reasoning_content: false, ..config() };
    let t = play(&cfg, setup("run echo hi", Vec::new(), Vec::new()), reasoned_rounds(), true);
    assert_eq!(t.requests.len(), 2);
    let second = value(&t.requests[1]);
    let msgs = second["messages"].as_array().unwrap();
    assert!(msgs.iter().any(is_tool_call_message));
    assert!(!second.to_string().contains("reasoning_content"));
}

#[test]
fn a_round_is_told_with_its_reasoning() {
    let mut second = bash_round();
    second.insert(0, reasoning_chunk("Once more. "));
    let mut rounds = reasoned_rounds();
    rounds.insert(1, second);
    let t = play(&config(), setup("go", Vec::new(), Vec::new()), rounds, true);
    assert_eq!(t.requests.len(), 3);
    let third = value(&t.requests[2]);
    let msgs = third["messages"].as_array().unwrap();
    let roles: Vec<&str> = msgs.iter().map(|m| m["role"].as_str().unwrap()).collect();
    assert_eq!(roles, ["system", "user", "assistant", "tool", "assistant", "tool"]);
    assert_eq!(msgs[2]["reasoning_content"], "I should check. ");
    assert_eq!(msgs[4]["reasoning_content"], "Once more. ");
    assert_eq!(msgs[5]["tool_call_id"], "call_1");
    assert_eq!(msgs[5]["content"], "hi");
}

#[test]
fn loop_denied_tool_reports_error_and_keeps_going() {
    let t = play(
        &config(),
        setup("do it", Vec::new(), Vec::new()),
        vec![
            vec![tool_frag(0, "call_1", "bash", ""), finish_chunk("tool_calls")],
            vec![delta_chunk("Never mind"), finish_chunk("stop")],
        ],
        false,
    );
    assert_eq!(t.rows.len(), 4);
    let tr = value(&t.rows[2].content);
    assert_eq!(tr["error"], true);
    assert_eq!(tr["output"], "The user denied this tool call.");
    assert_eq!(t.rows[3].content, "Never mind");
    assert!(t.events.iter().any(|e| matches!(e, StreamEvent::ToolResult { ok: false, .. })));
}

#[test]
fn loop_abort_preserves_partial_text() {
    let cfg = config();
    let mut turn = Turn::begin(setup("say something", Vec::new(), Vec::new()), &cfg, &memory());
    let mut events = Vec::new();
    let mut rows = Vec::new();
    // Stop as soon as the first delta has been delivered, before " world".
    let body = body_of(&[delta_chunk("Hello"), delta_chunk(" world")]);
    let acc = complete(&body, 4096, &mut events, |e| {
        e.iter().any(|e| matches!(e, StreamEvent::Delta { text } if text == "Hello"))
    });
    turn.round_done(acc, true, &mut rows);
    assert!(matches!(turn.phase(), Phase::Over(_)));
    rows.push(turn.finish(None, &mut events));
    assert_eq!(rows.len(), 1);
    assert_eq!(rows[0].content, "Hello");
    assert_eq!(rows[0].stop_reason.as_deref(), Some("aborted"));
    assert!(matches!(
        events.last(),
        Some(StreamEvent::Done { stop_reason }) if stop_reason == "aborted"
    ));
}

#[test]
fn a_turn_has_only_so_many_rounds() {
    let replies = vec![bash_round(); 9];
    let t = play(&config(), setup("loop", Vec::new(), Vec::new()), replies, true);
    assert_eq!(t.requests.len(), 9);
    let last = t.rows.last().unwrap();
    assert_eq!(last.stop_reason.as_deref(), Some("length"));
    // A user row, two for each round, and the reply.
    assert_eq!(t.rows.len(), 1 + 2 * 8 + 1);
}

#[test]
fn a_preamble_is_stored_with_the_reasoning() {
    let mut first = bash_round();
    first.insert(0, reasoning_chunk("why "));
    first.insert(1, delta_chunk("Let me look."));
    let t = play(
        &config(),
        setup("x", Vec::new(), Vec::new()),
        vec![first, vec![delta_chunk("ok"), finish_chunk("stop")]],
        true,
    );
    assert_eq!(t.rows.len(), 5);
    assert_eq!(t.rows[1].content, "Let me look.");
    assert_eq!(t.rows[1].thinking.as_deref(), Some("why "));
    assert!(t.rows[2].content.contains("tool_calls"));
    assert_eq!(t.rows[2].thinking, None);
}

#[test]
fn a_turn_that_is_stopped_between_tools_ends_without_text() {
    let cfg = config();
    let mut turn = Turn::begin(setup("x", Vec::new(), Vec::new()), &cfg, &memory());
    let (mut events, mut rows) = (Vec::new(), Vec::new());
    let acc = complete_once(&[
        tool_frag(0, "a", "save_memory", ""),
        tool_frag(1, "b", "bash", ""),
        finish_chunk("tool_calls"),
    ]);
    turn.round_done(acc, false, &mut rows);
    let call = turn.next_call(&mut events);
    assert_eq!(call.id, "a");
    let row = turn.call_done(ToolOutput::ok("done".to_string()), true, &mut events);
    assert_eq!(row.role, "tool");
    match turn.phase() {
        Phase::Over(e) => {
            assert_eq!(e.stop_reason, "aborted");
            assert_eq!(e.text, "");
            assert_eq!(e.thinking, None);
        }
        _ => panic!("goes on"),
    }
}

#[test]
fn a_request_that_fails_ends_the_turn() {
    let cfg = config();
    let mut turn = Turn::begin(setup("x", Vec::new(), Vec::new()), &cfg, &memory());
    let mut events = Vec::new();
    turn.request_failed(request_refused_text("401 Unauthorized", "no"), &mut events);
    assert!(matches!(
        &events[0],
        StreamEvent::Error { message } if message == "create stream: HTTP 401 Unauthorized: no"
    ));
    assert!(turn.billed_usage().is_none());
    let row = turn.finish(None, &mut events);
    assert_eq!(row.stop_reason.as_deref(), Some("error"));
    assert_eq!(row.usage.as_deref(), Some("{}"));
    assert_eq!(request_failed_text("e"), "create stream: e");
}

#[test]
fn tools_are_told_apart() {
    let call = |name: &str, arguments: &str| ToolCall {
        id: "i".into(),
        name: name.into(),
        arguments: doc(arguments),
    };
    match tool_action(&call("web_search", r#"{"query":"q","count":7}"#), None) {
        ToolAction::Search { query, count } => assert_eq!((query.as_str(), count), ("q", Some(7))),
        _ => panic!("no search"),
    }
    assert!(matches!(tool_action(&call("save_memory", "{}"), None), ToolAction::Memory));
    assert!(matches!(tool_action(&call("read_memory", "{}"), Some(false)), ToolAction::Memory));
    assert!(matches!(
        tool_action(&call("bash", r#"{"command":"ls"}"#), Some(true)),
        ToolAction::Host { action: HostAction::Run { command } } if command == "ls"
    ));
    for verdict in [None, Some(false)] {
        match tool_action(&call("read_file", r#"{"path":"x"}"#), verdict) {
            ToolAction::Answer { output } => {
                assert_eq!(output.content, "The user denied this tool call.");
                assert!(output.is_error);
            }
            _ => panic!("runs"),
        }
    }
}

#[test]
fn a_turn_needs_a_key_and_a_model() {
    assert_eq!(
        ready(None, "").unwrap_err(),
        "API key not set — open Settings and add your key."
    );
    assert_eq!(
        ready(Some("k".to_string()), "  ").unwrap_err(),
        "No model selected — set a model in Settings."
    );
    assert_eq!(ready(Some("k".to_string()), "m").unwrap(), "k");
    assert_eq!(conversation_not_found("c"), "conversation not found: c");
}

// ---------- registries ----------

#[test]
fn streams_are_cancelled_by_conversation() {
    let mut r = StreamRegistry::default();
    let a = r.register("a".to_string());
    let b = r.register("b".to_string());
    r.cancel("a");
    r.cancel("a");
    r.cancel("none");
    assert!(r.is_cancelled(a));
    assert!(!r.is_cancelled(b));
    r.remove("b");
    r.cancel("b");
    assert!(!r.is_cancelled(b));
    let again = r.register("a".to_string());
    assert!(!r.is_cancelled(again));
    assert!(r.is_cancelled(a));
}

#[test]
fn tickets_are_given_back() {
    let mut r = StreamRegistry::default();
    assert!(r.can_register());
    let a = r.register("a".to_string());
    r.cancel("a");
    r.remove("a");
    r.release(a);
    assert!(!r.is_cancelled(a));
    let b = r.register("a".to_string());
    assert_ne!(a, b);
    r.release(b);
    r.cancel("a");
    assert!(!r.is_cancelled(b));

    let mut r = ApprovalRegistry::default();
    assert!(r.can_register());
    let x = r.register("x".to_string());
    let y = r.register("y".to_string());
    r.release(x);
    assert!(r.resolve("x", true));
    assert_eq!(r.verdict(x), None);
    r.deny_all();
    assert_eq!(r.verdict(y), Some(false));
    r.release(y);
    assert_eq!(r.verdict(y), None);
}

#[test]
fn approvals_reach_their_tickets() {
    let mut r = ApprovalRegistry::default();
    let first = r.register("x".to_string());
    let second = r.register("x".to_string());
    assert_eq!(r.verdict(first), Some(false));
    assert_eq!(r.verdict(second), None);
    assert!(r.resolve("x", true));
    assert_eq!(r.verdict(second), Some(true));
    let third = r.register("y".to_string());
    r.deny_all();
    assert_eq!(r.verdict(third), Some(false));
    assert_eq!(r.verdict(second), Some(true));
    assert!(!r.resolve("y", true));
}
