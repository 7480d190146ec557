//! The tools that a model can call: what is offered, what a call asks for, and what
//! it is answered.
//!
//! Running a command, touching a file or asking the search server is the caller's
//! work. The functions here say what is to be done and turn what came of it into the
//! text that the model reads.
use std::collections::HashMap;

use vstd::prelude::*;
use vstd::string::*;

use crate::digits;
use crate::json;
use crate::json::{Json, JsonView};
use crate::keyed;
use crate::text;

verus! {

/// The number of rounds of tool calls after which a turn is handed back to the user.
pub const MAX_TOOL_ROUNDS: u32 = 8;

/// The number of characters of a tool's output that the model gets to see.
pub const MAX_OUTPUT_CHARS: usize = 20_000;

// ---------------------------------------------------------------------------
// Calls and outputs
// ---------------------------------------------------------------------------

/// A call of a tool, as the model asked for it.
pub struct ToolCall {
    pub id: String,
    pub name: String,
    pub arguments: Json,
}

/// What a call of a tool holds.
#[verifier::ext_equal]
pub struct CallView {
    pub id: Seq<char>,
    pub name: Seq<char>,
    pub arguments: JsonView,
}

impl View for ToolCall {
    type V = CallView;

    open spec fn view(&self) -> CallView {
        CallView { id: self.id@, name: self.name@, arguments: self.arguments@ }
    }
}

/// What the calls hold.
pub open spec fn call_views(v: Seq<ToolCall>) -> Seq<CallView> {
    Seq::new(v.len(), |i: int| v[i]@)
}

/// A copy of a call.
pub fn copy_call(c: &ToolCall) -> (r: ToolCall)
    ensures
        r@ == c@,
{
    ToolCall { id: c.id.clone(), name: c.name.clone(), arguments: c.arguments.duplicate() }
}

/// What came of a call.
#[derive(Clone, Debug)]
pub struct ToolOutput {
    pub content: String,
    pub is_error: bool,
}

/// What an output holds.
#[verifier::ext_equal]
pub struct OutputView {
    pub content: Seq<char>,
    pub is_error: bool,
}

impl View for ToolOutput {
    type V = OutputView;

    open spec fn view(&self) -> OutputView {
        OutputView { content: self.content@, is_error: self.is_error }
    }
}

/// The output of a call that succeeded.
pub open spec fn fine(content: Seq<char>) -> OutputView {
    OutputView { content, is_error: false }
}

/// The output of a call that failed.
pub open spec fn failed(content: Seq<char>) -> OutputView {
    OutputView { content, is_error: true }
}

impl ToolOutput {
    /// The output of a call that succeeded.
    pub fn ok(content: String) -> (r: Self)
        ensures
            r@ == fine(content@),
    {
        ToolOutput { content, is_error: false }
    }

    /// The output of a call that failed.
    pub fn err(content: String) -> (r: Self)
        ensures
            r@ == failed(content@),
    {
        ToolOutput { content, is_error: true }
    }
}

/// What is told the model of a call that the user denied.
pub open spec fn denied() -> OutputView {
    failed("The user denied this tool call."@)
}

/// What is told the model of a call that the user denied.
pub fn denied_output() -> (r: ToolOutput)
    ensures
        r@ == denied(),
{
    ToolOutput::err("The user denied this tool call.".to_owned())
}

/// Whether a tool reaches the user's machine, so that each call needs a nod.
pub open spec fn gated(name: Seq<char>) -> bool {
    name == "bash"@ || name == "read_file"@ || name == "write_file"@
}

/// Whether a tool needs the user's approval for each call.
pub fn is_gated(name: &str) -> (r: bool)
    ensures
        r == gated(name@),
{
    text::same(name, "bash") || text::same(name, "read_file") || text::same(name, "write_file")
}

/// An output cut to what the model gets to see.
pub open spec fn truncated(s: Seq<char>) -> Seq<char> {
    if s.len() > MAX_OUTPUT_CHARS {
        s.take(MAX_OUTPUT_CHARS as int) + "\n…[truncated]"@
    } else {
        s
    }
}

/// An output cut to what the model gets to see.
pub fn truncate(s: String) -> (r: String)
    ensures
        r@ == truncated(s@),
{
    if text::char_count(s.as_str()) > MAX_OUTPUT_CHARS {
        let mut out = text::take_chars(s.as_str(), MAX_OUTPUT_CHARS);
        out.append("\n…[truncated]");
        out
    } else {
        s
    }
}

// ---------------------------------------------------------------------------
// What is offered
// ---------------------------------------------------------------------------

/// No output is longer than what the model gets to see, but for a note that it was cut;
/// one that is not longer is not cut.
pub proof fn law_output_is_bounded(s: Seq<char>)
    ensures
        truncated(s).len() <= MAX_OUTPUT_CHARS + "\n…[truncated]"@.len(),
        s.len() <= MAX_OUTPUT_CHARS ==> truncated(s) == s,
        s.take(truncated(s).len() - "\n…[truncated]"@.len()) == truncated(s).take(
            truncated(s).len() - "\n…[truncated]"@.len(),
        ) || truncated(s) == s,
{
}

/// A tool as it is offered to the model.
pub struct ToolSpec {
    pub name: String,
    pub description: String,
    pub parameters: Json,
}

/// What the offer of a tool holds.
#[verifier::ext_equal]
pub struct SpecView {
    pub name: Seq<char>,
    pub description: Seq<char>,
    pub parameters: JsonView,
}

impl View for ToolSpec {
    type V = SpecView;

    open spec fn view(&self) -> SpecView {
        SpecView {
            name: self.name@,
            description: self.description@,
            parameters: self.parameters@,
        }
    }
}

/// What the offers hold.
pub open spec fn spec_views(v: Seq<ToolSpec>) -> Seq<SpecView> {
    Seq::new(v.len(), |i: int| v[i]@)
}

/// The schema of a parameter.
pub open spec fn parameter(kind: Seq<char>, description: Seq<char>) -> JsonView {
    json::with_member(
        json::with_member(json::empty_object(), "type"@, JsonView::Text(kind)),
        "description"@,
        JsonView::Text(description),
    )
}

/// The schema of the parameters of a tool.
pub open spec fn schema(properties: JsonView, required: Seq<Seq<char>>) -> JsonView {
    json::with_member(
        json::with_member(
            json::with_member(json::empty_object(), "type"@, JsonView::Text("object"@)),
            "properties"@,
            properties,
        ),
        "required"@,
        json::text_array(required),
    )
}

/// The offer of `bash`.
pub open spec fn bash_spec() -> SpecView {
    SpecView {
        name: "bash"@,
        description: "Run a bash command and return stdout/stderr."@,
        parameters: schema(
            json::with_member(
                json::empty_object(),
                "command"@,
                parameter("string"@, "The bash command to run"@),
            ),
            seq!["command"@],
        ),
    }
}

/// The offer of `read_file`.
pub open spec fn read_file_spec() -> SpecView {
    SpecView {
        name: "read_file"@,
        description: "Read a file's contents as text."@,
        parameters: schema(
            json::with_member(
                json::empty_object(),
                "path"@,
                parameter("string"@, "Absolute or relative file path"@),
            ),
            seq!["path"@],
        ),
    }
}

/// The offer of `write_file`.
pub open spec fn write_file_spec() -> SpecView {
    SpecView {
        name: "write_file"@,
        description: "Write text content to a file (creates or overwrites)."@,
        parameters: schema(
            json::with_member(
                json::with_member(
                    json::empty_object(),
                    "path"@,
                    parameter("string"@, "File path to write"@),
                ),
                "content"@,
                parameter("string"@, "Text content to write"@),
            ),
            seq!["path"@, "content"@],
        ),
    }
}

/// The offer of `save_memory`.
pub open spec fn save_memory_spec() -> SpecView {
    SpecView {
        name: "save_memory"@,
        description: "Save a stable, user-specific fact to long-term memory. Use for durable preferences, identity details, goals, and notes — not transient chat context. Saving the same fact again updates the existing entry. By default the category routes to a canonical file; pass `path` to write to a specific existing or new file."@,
        parameters: schema(
            json::with_member(
                json::with_member(
                    json::with_member(
                        json::with_member(
                            json::empty_object(),
                            "content"@,
                            parameter(
                                "string"@,
                                "The fact to remember, written as a short self-contained statement"@,
                            ),
                        ),
                        "path"@,
                        parameter(
                            "string"@,
                            "Memory file to write to, e.g. project-x.md. Overrides category and is created if it doesn't exist. Omit to use a canonical file."@,
                        ),
                    ),
                    "category"@,
                    json::with_member(
                        parameter(
                            "string"@,
                            "Which canonical file to use when `path` is omitted"@,
                        ),
                        "enum"@,
                        json::text_array(seq!["preference"@, "identity"@, "goal"@, "note"@]),
                    ),
                ),
                "importance"@,
                parameter("number"@, "How important this is, 0-5 (default 3)"@),
            ),
            seq!["content"@],
        ),
    }
}

/// The offer of `read_memory`.
pub open spec fn read_memory_spec() -> SpecView {
    SpecView {
        name: "read_memory"@,
        description: "Read the full contents of a long-term memory file on demand, such as preferences.md, identity.md, goals.md, notes.md, or index.md."@,
        parameters: schema(
            json::with_member(
                json::empty_object(),
                "path"@,
                parameter("string"@, "Memory file name, e.g. preferences.md"@),
            ),
            seq!["path"@],
        ),
    }
}

/// The offer of `web_search`.
pub open spec fn web_search_spec() -> SpecView {
    SpecView {
        name: "web_search"@,
        description: "Search the web for current information. Returns results with title, URL, and snippet."@,
        parameters: schema(
            json::with_member(
                json::with_member(
                    json::empty_object(),
                    "query"@,
                    parameter("string"@, "Search query"@),
                ),
                "count"@,
                parameter("number"@, "Number of results (default 5, max 20)"@),
            ),
            seq!["query"@],
        ),
    }
}

/// The tools that are offered; the search only where there is a server for it.
pub open spec fn offered(web_search: bool) -> Seq<SpecView> {
    let always = seq![
        bash_spec(),
        read_file_spec(),
        write_file_spec(),
        save_memory_spec(),
        read_memory_spec(),
    ];
    if web_search {
        always.push(web_search_spec())
    } else {
        always
    }
}

/// The schema of a parameter.
fn make_parameter(kind: &str, description: &str) -> (r: Json)
    ensures
        r@ == parameter(kind@, description@),
{
    Json::empty().with("type", Json::text(kind)).with("description", Json::text(description))
}

/// The schema of the parameters of a tool.
fn make_schema(properties: Json, required: &Vec<String>) -> (r: Json)
    ensures
        r@ == schema(properties@, text::texts(required@)),
{
    Json::empty().with("type", Json::text("object")).with("properties", properties).with(
        "required",
        Json::texts(required),
    )
}

/// One name in a list.
fn one(a: &str) -> (r: Vec<String>)
    ensures
        text::texts(r@) == seq![a@],
{
    let r: Vec<String> = vec![a.to_owned()];
    assert(text::texts(r@) =~= seq![a@]);
    r
}

/// The tools that are offered to the model; `web_search` only where it can be had.
pub fn tool_specs(web_search: bool) -> (r: Vec<ToolSpec>)
    ensures
        spec_views(r@) == offered(web_search),
{
    let mut out: Vec<ToolSpec> = Vec::new();
    out.push(
        ToolSpec {
            name: "bash".to_owned(),
            description: "Run a bash command and return stdout/stderr.".to_owned(),
            parameters: make_schema(
                Json::empty().with("command", make_parameter("string", "The bash command to run")),
                &one("command"),
            ),
        },
    );
    out.push(
        ToolSpec {
            name: "read_file".to_owned(),
            description: "Read a file's contents as text.".to_owned(),
            parameters: make_schema(
                Json::empty().with(
                    "path",
                    make_parameter("string", "Absolute or relative file path"),
                ),
                &one("path"),
            ),
        },
    );
    let both: Vec<String> = vec!["path".to_owned(), "content".to_owned()];
    assert(text::texts(both@) =~= seq!["path"@, "content"@]);
    out.push(
        ToolSpec {
            name: "write_file".to_owned(),
            description: "Write text content to a file (creates or overwrites).".to_owned(),
            parameters: make_schema(
                Json::empty().with("path", make_parameter("string", "File path to write")).with(
                    "content",
                    make_parameter("string", "Text content to write"),
                ),
                &both,
            ),
        },
    );
    out.push(make_save_memory());
    out.push(
        ToolSpec {
            name: "read_memory".to_owned(),
            description: "Read the full contents of a long-term memory file on demand, such as preferences.md, identity.md, goals.md, notes.md, or index.md.".to_owned(),
            parameters: make_schema(
                Json::empty().with(
                    "path",
                    make_parameter("string", "Memory file name, e.g. preferences.md"),
                ),
                &one("path"),
            ),
        },
    );
    if web_search {
        out.push(
            ToolSpec {
                name: "web_search".to_owned(),
                description: "Search the web for current information. Returns results with title, URL, and snippet.".to_owned(),
                parameters: make_schema(
                    Json::empty().with("query", make_parameter("string", "Search query")).with(
                        "count",
                        make_parameter("number", "Number of results (default 5, max 20)"),
                    ),
                    &one("query"),
                ),
            },
        );
    }
    assert(spec_views(out@) =~= offered(web_search));
    out
}

/// The offer of `save_memory`.
fn make_save_memory() -> (r: ToolSpec)
    ensures
        r@ == save_memory_spec(),
{
    let categories: Vec<String> = vec![
        "preference".to_owned(),
        "identity".to_owned(),
        "goal".to_owned(),
        "note".to_owned(),
    ];
    assert(text::texts(categories@) =~= seq!["preference"@, "identity"@, "goal"@, "note"@]);
    let properties = Json::empty().with(
        "content",
        make_parameter(
            "string",
            "The fact to remember, written as a short self-contained statement",
        ),
    ).with(
        "path",
        make_parameter(
            "string",
            "Memory file to write to, e.g. project-x.md. Overrides category and is created if it doesn't exist. Omit to use a canonical file.",
        ),
    ).with(
        "category",
        make_parameter("string", "Which canonical file to use when `path` is omitted").with(
            "enum",
            Json::texts(&categories),
        ),
    ).with("importance", make_parameter("number", "How important this is, 0-5 (default 3)"));
    ToolSpec {
        name: "save_memory".to_owned(),
        description: "Save a stable, user-specific fact to long-term memory. Use for durable preferences, identity details, goals, and notes — not transient chat context. Saving the same fact again updates the existing entry. By default the category routes to a canonical file; pass `path` to write to a specific existing or new file.".to_owned(),
        parameters: make_schema(properties, &one("content")),
    }
}

// ---------------------------------------------------------------------------
// The host's tools
// ---------------------------------------------------------------------------

/// What a call of one of the host's tools asks for.
pub enum HostAction {
    /// Run a command in the conversation's shell.
    Run { command: String },
    /// Read a file as text.
    Read { path: String },
    /// Write a file.
    Write { path: String, content: String },
    /// Nothing: the call is answered at once.
    Answer { output: ToolOutput },
}

/// What an action holds.
#[verifier::ext_equal]
pub enum ActionView {
    Run { command: Seq<char> },
    Read { path: Seq<char> },
    Write { path: Seq<char>, content: Seq<char> },
    Answer { output: OutputView },
}

impl View for HostAction {
    type V = ActionView;

    open spec fn view(&self) -> ActionView {
        match self {
            HostAction::Run { command } => ActionView::Run { command: command@ },
            HostAction::Read { path } => ActionView::Read { path: path@ },
            HostAction::Write { path, content } => ActionView::Write {
                path: path@,
                content: content@,
            },
            HostAction::Answer { output } => ActionView::Answer { output: output@ },
        }
    }
}

/// What a call of one of the host's tools asks for. A call that lacks an argument, or
/// names no tool, is answered with an error, so that the model can correct itself.
pub open spec fn host_request(call: CallView) -> ActionView {
    let path = json::member_text(call.arguments, "path"@);
    let content = json::member_text(call.arguments, "content"@);
    if call.name == "bash"@ {
        match json::member_text(call.arguments, "command"@) {
            Some(command) => ActionView::Run { command },
            None => ActionView::Answer { output: failed("bash: missing 'command' argument"@) },
        }
    } else if call.name == "read_file"@ {
        match path {
            Some(path) => ActionView::Read { path },
            None => ActionView::Answer { output: failed("read_file: missing 'path' argument"@) },
        }
    } else if call.name == "write_file"@ {
        match (path, content) {
            (Some(path), Some(content)) => ActionView::Write { path, content },
            _ => ActionView::Answer {
                output: failed("write_file: missing 'path' or 'content' argument"@),
            },
        }
    } else {
        ActionView::Answer { output: failed("unknown tool: "@ + call.name) }
    }
}

/// What a call of one of the host's tools asks for.
pub fn host_action(call: &ToolCall) -> (r: HostAction)
    ensures
        r@ == host_request(call@),
{
    let name = call.name.as_str();
    if text::same(name, "bash") {
        match call.arguments.get_str("command") {
            Some(command) => HostAction::Run { command: command.to_owned() },
            None => HostAction::Answer {
                output: ToolOutput::err("bash: missing 'command' argument".to_owned()),
            },
        }
    } else if text::same(name, "read_file") {
        match call.arguments.get_str("path") {
            Some(path) => HostAction::Read { path: path.to_owned() },
            None => HostAction::Answer {
                output: ToolOutput::err("read_file: missing 'path' argument".to_owned()),
            },
        }
    } else if text::same(name, "write_file") {
        match (call.arguments.get_str("path"), call.arguments.get_str("content")) {
            (Some(path), Some(content)) => HostAction::Write {
                path: path.to_owned(),
                content: content.to_owned(),
            },
            _ => HostAction::Answer {
                output: ToolOutput::err(
                    "write_file: missing 'path' or 'content' argument".to_owned(),
                ),
            },
        }
    } else {
        let mut message = "unknown tool: ".to_owned();
        message.append(name);
        HostAction::Answer { output: ToolOutput::err(message) }
    }
}

/// The output of `read_file`: the text of the file, or why it could not be read.
pub fn read_file_output(result: Result<String, String>) -> (r: ToolOutput)
    ensures
        r@ == match result {
            Ok(content) => fine(truncated(content@)),
            Err(e) => failed("read_file: "@ + e@),
        },
{
    match result {
        Ok(content) => ToolOutput::ok(truncate(content)),
        Err(e) => {
            let mut message = "read_file: ".to_owned();
            message.append(e.as_str());
            ToolOutput::err(message)
        },
    }
}

/// What is told of a file that was written: the bytes of its text and its path.
pub open spec fn wrote(path: Seq<char>, content: Seq<char>) -> Seq<char> {
    "wrote "@ + digits::decimal(vstd::utf8::encode_utf8(content).len()) + " bytes to "@ + path
}

/// The output of `write_file`: what was written, or why it could not be.
pub fn write_file_output(path: &str, content: &str, result: Result<(), String>) -> (r: ToolOutput)
    ensures
        r@ == match result {
            Ok(_) => fine(wrote(path@, content@)),
            Err(e) => failed("write_file: "@ + e@),
        },
{
    match result {
        Ok(_) => {
            let mut message = "wrote ".to_owned();
            message.append(digits::decimal_text(content.as_bytes().len() as u64).as_str());
            message.append(" bytes to ");
            message.append(path);
            ToolOutput::ok(message)
        },
        Err(e) => {
            let mut message = "write_file: ".to_owned();
            message.append(e.as_str());
            ToolOutput::err(message)
        },
    }
}

// ---------------------------------------------------------------------------
// Web search
// ---------------------------------------------------------------------------

/// The path of the search server's script, below the home directory.
pub open spec fn script_below(home: Seq<char>) -> Seq<char> {
    let script = ".config/opencode/mcp/brave-search.mjs"@;
    if home.len() == 0 || home.last() == '/' {
        home + script
    } else {
        home + "/"@ + script
    }
}

/// The path of the search server's script.
pub fn brave_script_path(home: Option<&str>) -> (r: String)
    ensures
        r@ == script_below(
            match home {
                Some(h) => h@,
                None => "/home/rp"@,
            },
        ),
{
    let home = match home {
        Some(h) => h,
        None => "/home/rp",
    };
    let v = text::chars_of(home);
    let mut out = home.to_owned();
    if v.len() > 0 && v[v.len() - 1] != '/' {
        out.append("/");
    }
    out.append(".config/opencode/mcp/brave-search.mjs");
    out
}

/// What is to be done next for a search.
pub enum SearchStep {
    /// Have a server that runs, starting one where there is none.
    Connect,
    /// Drop the server, which has died, and start another.
    Reconnect,
    /// Ask the server.
    Ask,
    /// The search is over.
    Answer { output: ToolOutput },
}

/// What a step holds.
#[verifier::ext_equal]
pub enum SearchView {
    Connect,
    Reconnect,
    Ask,
    Answer { output: OutputView },
}

impl View for SearchStep {
    type V = SearchView;

    open spec fn view(&self) -> SearchView {
        match self {
            SearchStep::Connect => SearchView::Connect,
            SearchStep::Reconnect => SearchView::Reconnect,
            SearchStep::Ask => SearchView::Ask,
            SearchStep::Answer { output } => SearchView::Answer { output: output@ },
        }
    }
}

/// What the server replied: the texts in its reply and whether it calls it an error.
pub struct SearchReply {
    pub texts: Vec<String>,
    pub is_error: Option<bool>,
}

/// The texts of a reply, one below the other; those that come before the first that
/// is not empty leave no line.
pub open spec fn gathered(texts: Seq<Seq<char>>) -> Seq<char>
    decreases texts.len(),
{
    if texts.len() == 0 {
        Seq::empty()
    } else {
        let before = gathered(texts.drop_last());
        if before.len() == 0 {
            texts.last()
        } else {
            before.push('\n') + texts.last()
        }
    }
}

/// The first step of a search.
pub fn search_begins(script_exists: bool) -> (r: SearchStep)
    ensures
        r@ == (if script_exists {
            SearchView::Connect
        } else {
            SearchView::Answer {
                output: failed(
                    "web_search: MCP server script not found (~/.config/opencode/mcp/brave-search.mjs)"@,
                ),
            }
        }),
{
    if script_exists {
        SearchStep::Connect
    } else {
        SearchStep::Answer {
            output: ToolOutput::err(
                "web_search: MCP server script not found (~/.config/opencode/mcp/brave-search.mjs)".to_owned(),
            ),
        }
    }
}

/// The step after the server was started, or could not be.
pub fn search_connected(result: Result<(), String>) -> (r: SearchStep)
    ensures
        r@ == match result {
            Ok(_) => SearchView::Ask,
            Err(e) => SearchView::Answer { output: failed("web_search: "@ + e@) },
        },
{
    match result {
        Ok(_) => SearchStep::Ask,
        Err(e) => {
            let mut message = "web_search: ".to_owned();
            message.append(e.as_str());
            SearchStep::Answer { output: ToolOutput::err(message) }
        },
    }
}

/// What a search asks of the server.
pub open spec fn search_request(query: Seq<char>, count: Option<u64>) -> JsonView {
    let asked = json::with_member(json::empty_object(), "query"@, JsonView::Text(query));
    match count {
        Some(n) => json::with_member(
            asked,
            "count"@,
            JsonView::Number(json::NumberView::PosInt(n)),
        ),
        None => asked,
    }
}

/// What a search asks of the server.
pub fn search_arguments(query: &str, count: Option<u64>) -> (r: Json)
    ensures
        r@ == search_request(query@, count),
{
    let asked = Json::empty().with("query", Json::text(query));
    match count {
        Some(n) => asked.with("count", Json::unsigned(n)),
        None => asked,
    }
}

/// The texts of a reply, one below the other.
pub fn gather(texts: &Vec<String>) -> (r: String)
    ensures
        r@ == gathered(text::texts(texts@)),
{
    let ghost t = text::texts(texts@);
    let mut out = String::new();
    let mut i: usize = 0;
    assert(t.take(0) =~= Seq::<Seq<char>>::empty());
    while i < texts.len()
        invariant
            i <= texts@.len(),
            t == text::texts(texts@),
            out@ == gathered(t.take(i as int)),
        decreases texts@.len() - i,
    {
        assert(t.take(i + 1).drop_last() =~= t.take(i as int));
        assert(t.take(i + 1).last() == texts@[i as int]@);
        if !out.as_str().is_empty() {
            out.push('\n');
        }
        let ghost before = out@;
        out.append(texts[i].as_str());
        i += 1;
        assert(out@ =~= gathered(t.take(i as int)));
    }
    assert(t.take(i as int) =~= t);
    out
}

/// The step after the server was asked. A failure is tried once more with a fresh
/// server: `again` says whether this was that trial.
pub fn search_replied(again: bool, result: Result<SearchReply, String>) -> (r: SearchStep)
    ensures
        r@ == match result {
            Ok(reply) => SearchView::Answer {
                output: OutputView {
                    content: truncated(gathered(text::texts(reply.texts@))),
                    is_error: reply.is_error == Some(true),
                },
            },
            Err(e) => if again {
                SearchView::Answer { output: failed("web_search: "@ + e@) }
            } else {
                SearchView::Reconnect
            },
        },
{
    match result {
        Ok(reply) => {
            let is_error = match reply.is_error {
                Some(b) => b,
                None => false,
            };
            SearchStep::Answer {
                output: ToolOutput { content: truncate(gather(&reply.texts)), is_error },
            }
        },
        Err(e) => {
            if again {
                let mut message = "web_search: ".to_owned();
                message.append(e.as_str());
                SearchStep::Answer { output: ToolOutput::err(message) }
            } else {
                SearchStep::Reconnect
            }
        },
    }
}

// ---------------------------------------------------------------------------
// Approvals
// ---------------------------------------------------------------------------

/// The calls that wait for the user's word.
///
/// A call that is registered gets a ticket, which is a number. Under its ticket the
/// verdict is found once there is one, until the ticket is given back.
pub struct ApprovalRegistry {
    pending: Vec<(String, u64)>,
    verdicts: HashMap<u64, Option<bool>>,
    next: u64,
}

/// What a registry holds: the ticket under which each call waits, the verdicts by ticket,
/// and the ticket that comes next.
#[verifier::ext_equal]
pub struct ApprovalsView {
    pub pending: Seq<(Seq<char>, u64)>,
    pub verdicts: Map<u64, Option<bool>>,
    pub next: u64,
}

impl View for ApprovalRegistry {
    type V = ApprovalsView;

    closed spec fn view(&self) -> ApprovalsView {
        ApprovalsView {
            pending: keyed::pairs(self.pending@),
            verdicts: self.verdicts@,
            next: self.next,
        }
    }
}

/// Whether a call waits under a ticket.
pub open spec fn waits(pending: Seq<(Seq<char>, u64)>, ticket: u64) -> bool {
    exists|i: int| 0 <= i < pending.len() && (#[trigger] pending[i]).1 == ticket
}

/// Whether each call that waits has a ticket of its own, and just the tickets of those that
/// wait are without a verdict.
pub open spec fn consistent(v: ApprovalsView) -> bool {
    &&& keyed::increasing(v.pending)
    &&& forall|i: int| 0 <= i < v.pending.len() ==> (#[trigger] v.pending[i]).1 < v.next
    &&& forall|i: int, j: int|
        0 <= i < j < v.pending.len() ==> (#[trigger] v.pending[i]).1 != (#[trigger] v.pending[j]).1
    &&& forall|t: u64| #[trigger] v.verdicts.contains_key(t) ==> t < v.next
    &&& forall|t: u64| #[trigger]
        v.verdicts.contains_key(t) ==> (v.verdicts[t] is None <==> waits(v.pending, t))
}

/// The verdict under a ticket, once there is one.
pub open spec fn verdict_of(v: ApprovalsView, ticket: u64) -> Option<bool> {
    if v.verdicts.contains_key(ticket) {
        v.verdicts[ticket]
    } else {
        None
    }
}

/// Whether every verdict of `a` stands in `b`.
pub open spec fn keeps_verdicts(a: ApprovalsView, b: ApprovalsView) -> bool {
    forall|t: u64| verdict_of(a, t) is Some ==> #[trigger] verdict_of(b, t) == verdict_of(a, t)
}

/// The verdicts with one more, where the ticket was not given back.
pub open spec fn settled(
    verdicts: Map<u64, Option<bool>>,
    ticket: u64,
    approved: bool,
) -> Map<u64, Option<bool>> {
    if verdicts.contains_key(ticket) {
        verdicts.insert(ticket, Some(approved))
    } else {
        verdicts
    }
}

/// The registry after a call was registered: a call that waited under the same id is
/// denied, since nobody can answer it any more.
pub open spec fn registered(v: ApprovalsView, call_id: Seq<char>) -> ApprovalsView {
    let before = match keyed::lookup(v.pending, call_id) {
        Some(t) => settled(v.verdicts, t, false),
        None => v.verdicts,
    };
    ApprovalsView {
        pending: keyed::put(v.pending, call_id, v.next),
        verdicts: before.insert(v.next, None),
        next: (v.next + 1) as u64,
    }
}

/// The registry after the user's word on a call.
pub open spec fn resolved(v: ApprovalsView, call_id: Seq<char>, approved: bool) -> ApprovalsView {
    match keyed::lookup(v.pending, call_id) {
        Some(t) => ApprovalsView {
            pending: keyed::without(v.pending, call_id),
            verdicts: settled(v.verdicts, t, approved),
            ..v
        },
        None => v,
    }
}

/// The registry after everything that waits was denied.
pub open spec fn all_denied(v: ApprovalsView) -> ApprovalsView {
    ApprovalsView {
        pending: Seq::empty(),
        verdicts: v.verdicts.map_values(
            |verdict: Option<bool>|
                match verdict {
                    Some(b) => Some(b),
                    None => Some(false),
                },
        ),
        ..v
    }
}

/// The registry after a ticket was given back.
pub open spec fn released(v: ApprovalsView, ticket: u64) -> ApprovalsView {
    ApprovalsView { verdicts: v.verdicts.remove(ticket), ..v }
}

impl Default for ApprovalRegistry {
    /// A registry without calls.
    fn default() -> (r: Self)
        ensures
            r@ == (ApprovalsView { pending: Seq::empty(), verdicts: Map::empty(), next: 0 }),
            consistent(r@),
    {
        let r = ApprovalRegistry { pending: Vec::new(), verdicts: HashMap::new(), next: 0 };
        assert(r@ =~= (ApprovalsView { pending: Seq::empty(), verdicts: Map::empty(), next: 0 }));
        r
    }
}

impl ApprovalRegistry {
    /// Whether there is a ticket for another call.
    pub fn can_register(&self) -> (r: bool)
        ensures
            r == (self@.next < u64::MAX),
    {
        self.next < u64::MAX
    }

    /// Registers a call and gives its ticket.
    pub fn register(&mut self, call_id: String) -> (r: u64)
        requires
            consistent(old(self)@),
            old(self)@.next < u64::MAX,
        ensures
            r == old(self)@.next,
            final(self)@ == registered(old(self)@, call_id@),
            consistent(final(self)@),
            keeps_verdicts(old(self)@, final(self)@),
    {
        broadcast use vstd::std_specs::hash::group_hash_axioms;

        let ghost v = self@;
        let ticket: u64 = self.next;
        proof {
            lemma_registered(v, call_id@);
            keyed::lemma_key_index(v.pending, call_id@);
        }
        if let Some(i) = keyed::position(&self.pending, call_id.as_str()) {
            let t: u64 = self.pending[i].1;
            assert(t == v.pending[i as int].1);
            if self.verdicts.contains_key(&t) {
                let _ = self.verdicts.insert(t, Some(false));
            }
        }
        let _ = self.verdicts.insert(ticket, None);
        keyed::put_under(&mut self.pending, call_id.as_str(), ticket);
        self.next = ticket + 1;
        assert(self@ =~= registered(v, call_id@));
        ticket
    }

    /// Gives the user's word on a call; says whether the call was waiting for it.
    pub fn resolve(&mut self, call_id: &str, approved: bool) -> (r: bool)
        requires
            consistent(old(self)@),
        ensures
            r == (keyed::lookup(old(self)@.pending, call_id@) is Some),
            final(self)@ == resolved(old(self)@, call_id@, approved),
            consistent(final(self)@),
            keeps_verdicts(old(self)@, final(self)@),
    {
        broadcast use vstd::std_specs::hash::group_hash_axioms;

        let ghost v = self@;
        proof {
            lemma_resolved(v, call_id@, approved);
            keyed::lemma_key_index(v.pending, call_id@);
        }
        match keyed::remove_under(&mut self.pending, call_id) {
            Some(t) => {
                if self.verdicts.contains_key(&t) {
                    let _ = self.verdicts.insert(t, Some(approved));
                }
                assert(self@ =~= resolved(v, call_id@, approved));
                true
            },
            None => {
                assert(self@ =~= v);
                false
            },
        }
    }

    /// Denies everything that waits.
    pub fn deny_all(&mut self)
        requires
            consistent(old(self)@),
        ensures
            final(self)@ == all_denied(old(self)@),
            consistent(final(self)@),
            keeps_verdicts(old(self)@, final(self)@),
    {
        broadcast use vstd::std_specs::hash::group_hash_axioms;

        let ghost v = self@;
        let ghost all = v.pending;
        while self.pending.len() > 0
            invariant
                consistent(v),
                all == v.pending,
                self.next == v.next,
                self.pending@.len() <= all.len(),
                keyed::pairs(self.pending@) == all.take(self.pending@.len() as int),
                forall|t: u64| #[trigger]
                    self.verdicts@.contains_key(t) <==> v.verdicts.contains_key(t),
                forall|t: u64| #[trigger]
                    v.verdicts.contains_key(t) ==> self.verdicts@[t] == (if waits(
                        all.skip(self.pending@.len() as int),
                        t,
                    ) {
                        Some(false)
                    } else {
                        v.verdicts[t]
                    }),
            decreases self.pending@.len(),
        {
            broadcast use vstd::std_specs::hash::group_hash_axioms;

            let ghost n = self.pending@.len() as int;
            if let Some((_, t)) = self.pending.pop() {
                proof {
                    assert(all.take(n)[n - 1] == all[n - 1]);
                    assert(t == all[n - 1].1);
                    assert(keyed::pairs(self.pending@) =~= all.take(n - 1));
                    lemma_one_more_waits(all, n - 1);
                }
                if self.verdicts.contains_key(&t) {
                    let _ = self.verdicts.insert(t, Some(false));
                }
            }
        }
        assert(all.skip(0) =~= all);
        assert(keyed::pairs(self.pending@) =~= Seq::empty());
        assert(self.verdicts@ =~= all_denied(v).verdicts);
        assert(self@ =~= all_denied(v));
    }

    /// Takes back the ticket of a call whose verdict nobody looks for any more.
    pub fn release(&mut self, ticket: u64)
        requires
            consistent(old(self)@),
        ensures
            final(self)@ == released(old(self)@, ticket),
            consistent(final(self)@),
    {
        broadcast use vstd::std_specs::hash::group_hash_axioms;

        let ghost v = self@;
        let _ = self.verdicts.remove(&ticket);
        assert(self@ =~= released(v, ticket));
    }

    /// The verdict under a ticket, once there is one.
    pub fn verdict(&self, ticket: u64) -> (r: Option<bool>)
        ensures
            r == verdict_of(self@, ticket),
    {
        broadcast use vstd::std_specs::hash::group_hash_axioms;

        match self.verdicts.get(&ticket) {
            Some(verdict) => *verdict,
            None => None,
        }
    }
}

/// The tickets from an index on are that at the index and those after it.
proof fn lemma_one_more_waits(pending: Seq<(Seq<char>, u64)>, i: int)
    requires
        0 <= i < pending.len(),
    ensures
        forall|t: u64| #[trigger]
            waits(pending.skip(i), t) <==> (t == pending[i].1 || waits(pending.skip(i + 1), t)),
{
    let a = pending.skip(i);
    let b = pending.skip(i + 1);
    assert forall|t: u64| #[trigger] waits(a, t) <==> (t == pending[i].1 || waits(b, t)) by {
        if waits(a, t) {
            let k = choose|k: int| 0 <= k < a.len() && (#[trigger] a[k]).1 == t;
            if k > 0 {
                assert(b[k - 1].1 == t);
            }
        }
        if t == pending[i].1 {
            assert(a[0].1 == t);
        }
        if waits(b, t) {
            let k = choose|k: int| 0 <= k < b.len() && (#[trigger] b[k]).1 == t;
            assert(a[k + 1].1 == t);
        }
    }
}

/// Whether the tickets of what waits differ, and were given.
spec fn tickets_differ(pending: Seq<(Seq<char>, u64)>, next: u64) -> bool {
    &&& forall|i: int| 0 <= i < pending.len() ==> (#[trigger] pending[i]).1 < next
    &&& forall|i: int, j: int|
        0 <= i < j < pending.len() ==> (#[trigger] pending[i]).1 != (#[trigger] pending[j]).1
}

/// A new ticket may take the place of another.
proof fn lemma_ticket_replaced(pending: Seq<(Seq<char>, u64)>, p: int, id: Seq<char>, next: u64)
    requires
        tickets_differ(pending, next),
        0 <= p < pending.len(),
        next < u64::MAX,
    ensures
        tickets_differ(pending.update(p, (id, next)), (next + 1) as u64),
        forall|t: u64| #[trigger]
            waits(pending.update(p, (id, next)), t) <==> (t == next || (t != pending[p].1 && waits(
                pending,
                t,
            ))),
{
    let s = pending.update(p, (id, next));
    assert forall|i: int, j: int| 0 <= i < j < s.len() implies (#[trigger] s[i]).1
        != (#[trigger] s[j]).1 by {
        assert(pending[i].1 < next && pending[j].1 < next);
    }
    assert forall|t: u64| #[trigger] waits(s, t) <==> (t == next || (t != pending[p].1 && waits(
        pending,
        t,
    ))) by {
        if waits(s, t) {
            let k = choose|k: int| 0 <= k < s.len() && (#[trigger] s[k]).1 == t;
            if k != p {
                assert(pending[k].1 == t);
            }
        }
        if t == next {
            assert(s[p].1 == t);
        }
        if t != pending[p].1 && waits(pending, t) {
            let k = choose|k: int| 0 <= k < pending.len() && (#[trigger] pending[k]).1 == t;
            assert(s[k].1 == t);
        }
    }
}

/// A new ticket may be put between the others.
proof fn lemma_ticket_inserted(pending: Seq<(Seq<char>, u64)>, p: int, id: Seq<char>, next: u64)
    requires
        tickets_differ(pending, next),
        0 <= p <= pending.len(),
        next < u64::MAX,
    ensures
        tickets_differ(pending.insert(p, (id, next)), (next + 1) as u64),
        forall|t: u64| #[trigger]
            waits(pending.insert(p, (id, next)), t) <==> (t == next || waits(pending, t)),
{
    let s = pending.insert(p, (id, next));
    assert forall|i: int| 0 <= i < s.len() implies (#[trigger] s[i]).1 < next + 1 by {
        if i < p {
            assert(s[i] == pending[i]);
        } else if i > p {
            assert(s[i] == pending[i - 1]);
        }
    }
    assert forall|i: int, j: int| 0 <= i < j < s.len() implies (#[trigger] s[i]).1
        != (#[trigger] s[j]).1 by {
        let a = if i < p {
            i
        } else {
            i - 1
        };
        let b = if j < p {
            j
        } else {
            j - 1
        };
        if i == p {
            assert(s[j] == pending[b]);
        } else if j == p {
            assert(s[i] == pending[a]);
        } else {
            assert(s[i] == pending[a] && s[j] == pending[b]);
        }
    }
    assert forall|t: u64| #[trigger] waits(s, t) <==> (t == next || waits(pending, t)) by {
        if waits(s, t) {
            let k = choose|k: int| 0 <= k < s.len() && (#[trigger] s[k]).1 == t;
            if k < p {
                assert(pending[k].1 == t);
            } else if k > p {
                assert(pending[k - 1].1 == t);
            }
        }
        if t == next {
            assert(s[p].1 == t);
        }
        if waits(pending, t) {
            let k = choose|k: int| 0 <= k < pending.len() && (#[trigger] pending[k]).1 == t;
            if k < p {
                assert(s[k].1 == t);
            } else {
                assert(s[k + 1].1 == t);
            }
        }
    }
}

/// Registering keeps the registry consistent and every verdict.
proof fn lemma_registered(v: ApprovalsView, call_id: Seq<char>)
    requires
        consistent(v),
        v.next < u64::MAX,
    ensures
        consistent(registered(v, call_id)),
        keeps_verdicts(v, registered(v, call_id)),
{
    let p = keyed::place(v.pending, call_id) as int;
    keyed::lemma_put(v.pending, call_id, v.next);
    keyed::lemma_place(v.pending, call_id);
    keyed::lemma_place_of_key(v.pending, call_id);
    keyed::lemma_key_index(v.pending, call_id);
    if p < v.pending.len() && v.pending[p].0 == call_id {
        lemma_ticket_replaced(v.pending, p, call_id, v.next);
        assert(waits(v.pending, v.pending[p].1));
    } else {
        lemma_ticket_inserted(v.pending, p, call_id, v.next);
    }
}

/// What waits may be taken out.
proof fn lemma_ticket_removed(pending: Seq<(Seq<char>, u64)>, p: int, next: u64)
    requires
        tickets_differ(pending, next),
        0 <= p < pending.len(),
    ensures
        tickets_differ(pending.remove(p), next),
        forall|t: u64| #[trigger]
            waits(pending.remove(p), t) <==> (t != pending[p].1 && waits(pending, t)),
{
    let s = pending.remove(p);
    assert forall|i: int| 0 <= i < s.len() implies (#[trigger] s[i]).1 < next by {
        let k = if i < p {
            i
        } else {
            i + 1
        };
        assert(s[i] == pending[k]);
    }
    assert forall|i: int, j: int| 0 <= i < j < s.len() implies (#[trigger] s[i]).1
        != (#[trigger] s[j]).1 by {
        let a = if i < p {
            i
        } else {
            i + 1
        };
        let b = if j < p {
            j
        } else {
            j + 1
        };
        assert(s[i] == pending[a] && s[j] == pending[b]);
    }
    assert forall|t: u64| #[trigger] waits(s, t) <==> (t != pending[p].1 && waits(pending, t)) by {
        if waits(s, t) {
            let i = choose|i: int| 0 <= i < s.len() && (#[trigger] s[i]).1 == t;
            let k = if i < p {
                i
            } else {
                i + 1
            };
            assert(pending[k].1 == t);
        }
        if t != pending[p].1 && waits(pending, t) {
            let k = choose|k: int| 0 <= k < pending.len() && (#[trigger] pending[k]).1 == t;
            if k < p {
                assert(s[k].1 == t);
            } else {
                assert(s[k - 1].1 == t);
            }
        }
    }
}

/// Resolving keeps the registry consistent and every verdict.
proof fn lemma_resolved(v: ApprovalsView, call_id: Seq<char>, approved: bool)
    requires
        consistent(v),
    ensures
        consistent(resolved(v, call_id, approved)),
        keeps_verdicts(v, resolved(v, call_id, approved)),
{
    keyed::lemma_without(v.pending, call_id);
    keyed::lemma_key_index(v.pending, call_id);
    if let Some(p) = keyed::key_index(v.pending, call_id) {
        lemma_ticket_removed(v.pending, p, v.next);
        assert(waits(v.pending, v.pending[p].1));
    }
}

/// A call is resolved once: the second word on it finds nothing that waits and changes
/// nothing.
pub proof fn law_resolved_once(
    v: ApprovalsView,
    call_id: Seq<char>,
    first: bool,
    second: bool,
)
    requires
        consistent(v),
    ensures
        ({
            let w = resolved(v, call_id, first);
            keyed::lookup(w.pending, call_id) is None && resolved(w, call_id, second) == w
        }),
{
    keyed::lemma_without(v.pending, call_id);
}

/// The word on a call that was registered reaches its ticket, and so does a denial of all
/// that waits.
pub proof fn law_verdict_reaches_ticket(v: ApprovalsView, call_id: Seq<char>, approved: bool)
    requires
        consistent(v),
        v.next < u64::MAX,
    ensures
        ({
            let waiting = registered(v, call_id);
            &&& verdict_of(waiting, v.next) is None
            &&& verdict_of(resolved(waiting, call_id, approved), v.next) == Some(approved)
            &&& verdict_of(all_denied(waiting), v.next) == Some(false)
        }),
{
    keyed::lemma_put(v.pending, call_id, v.next);
    keyed::lemma_key_index(v.pending, call_id);
}

/// A call that got its verdict and has given its ticket back leaves nothing behind, where no
/// other waited under its id.
pub proof fn law_resolved_call_leaves_nothing(
    v: ApprovalsView,
    call_id: Seq<char>,
    approved: bool,
)
    requires
        consistent(v),
        v.next < u64::MAX,
        keyed::lookup(v.pending, call_id) is None,
    ensures
        ({
            let done = released(resolved(registered(v, call_id), call_id, approved), v.next);
            done.verdicts == v.verdicts && keyed::lookup(done.pending, call_id) is None
        }),
{
    let waiting = registered(v, call_id);
    keyed::lemma_put(v.pending, call_id, v.next);
    keyed::lemma_without(waiting.pending, call_id);
    assert(!v.verdicts.contains_key(v.next));
    assert(released(resolved(waiting, call_id, approved), v.next).verdicts =~= v.verdicts);
}

/// A word on one call changes nothing for the calls under other ids, nor for what was
/// already decided; an older call under the id of a new one is denied.
pub proof fn law_verdicts_stay_apart(
    v: ApprovalsView,
    call_id: Seq<char>,
    other: Seq<char>,
    ticket: u64,
    older: u64,
    approved: bool,
)
    requires
        consistent(v),
        v.next < u64::MAX,
        other != call_id,
        keyed::lookup(v.pending, other) == Some(ticket),
    ensures
        ({
            let r = resolved(v, call_id, approved);
            let w = registered(v, call_id);
            &&& keyed::lookup(r.pending, other) == Some(ticket)
            &&& verdict_of(r, ticket) == verdict_of(v, ticket)
            &&& keyed::lookup(w.pending, other) == Some(ticket)
            &&& verdict_of(w, ticket) == verdict_of(v, ticket)
            &&& keyed::lookup(w.pending, call_id) == Some(v.next)
            &&& w.next == v.next + 1
            &&& keyed::lookup(v.pending, call_id) == Some(older) && v.verdicts.contains_key(older)
                ==> verdict_of(w, older) == Some(false) && verdict_of(r, older) == Some(approved)
        }),
{
    keyed::lemma_put(v.pending, call_id, v.next);
    keyed::lemma_without(v.pending, call_id);
    keyed::lemma_key_index(v.pending, call_id);
    keyed::lemma_key_index(v.pending, other);
    let i = keyed::key_index(v.pending, other)->0;
    if let Some(p) = keyed::key_index(v.pending, call_id) {
        assert(p != i);
        if p < i {
            assert(v.pending[p].1 != v.pending[i].1);
        } else {
            assert(v.pending[i].1 != v.pending[p].1);
        }
    }
}

/// Denying all that waits leaves nothing that waits and no verdict changed; a ticket that
/// is given back has no verdict, and the others have theirs.
pub proof fn law_denial_reaches_all(v: ApprovalsView, ticket: u64, other: u64)
    requires
        v.verdicts.contains_key(ticket),
        ticket != other,
    ensures
        all_denied(v).pending.len() == 0,
        verdict_of(v, ticket) is None ==> verdict_of(all_denied(v), ticket) == Some(false),
        verdict_of(v, ticket) is Some ==> verdict_of(all_denied(v), ticket) == verdict_of(v, ticket),
        verdict_of(released(v, ticket), ticket) is None,
        verdict_of(released(v, ticket), other) == verdict_of(v, other),
        released(v, ticket).pending == v.pending,
{
}

/// An output of more than twenty thousand characters is cut to these, and ends with a note
/// that it was; a shorter one is left as it is.
pub proof fn law_output_is_cut(s: Seq<char>, i: int)
    ensures
        s.len() <= 20_000 ==> truncated(s) == s,
        s.len() > 20_000 ==> truncated(s).len() == 20_000 + "\n…[truncated]"@.len() && truncated(
            s,
        ).skip(20_000) == "\n…[truncated]"@,
        0 <= i < 20_000 && i < s.len() ==> truncated(s)[i] == s[i],
{
    if s.len() > 20_000 {
        assert(truncated(s).skip(20_000) =~= "\n…[truncated]"@);
    }
}

/// Each of the host's tools gets the arguments that the call has for it; a call that lacks
/// one, and one of no known tool, is answered with an error that names what is wrong.
pub proof fn law_host_tools_get_their_arguments(call: CallView)
    ensures
        ({
            let r = host_request(call);
            let command = json::member_text(call.arguments, "command"@);
            let path = json::member_text(call.arguments, "path"@);
            let content = json::member_text(call.arguments, "content"@);
            &&& call.name == "bash"@ && command is Some ==> (r matches ActionView::Run {
                command: c,
            } && Some(c) == command)
            &&& call.name == "read_file"@ && path is Some ==> (r matches ActionView::Read {
                path: p,
            } && Some(p) == path)
            &&& call.name == "write_file"@ && path is Some && content is Some ==> (
            r matches ActionView::Write { path: p, content: c } && Some(p) == path && Some(c)
                == content)
            &&& call.name == "bash"@ && command is None ==> r == (ActionView::Answer {
                output: failed("bash: missing 'command' argument"@),
            })
            &&& call.name == "read_file"@ && path is None ==> r == (ActionView::Answer {
                output: failed("read_file: missing 'path' argument"@),
            })
            &&& call.name == "write_file"@ && (path is None || content is None) ==> r == (
            ActionView::Answer {
                output: failed("write_file: missing 'path' or 'content' argument"@),
            })
            &&& call.name != "bash"@ && call.name != "read_file"@ && call.name != "write_file"@
                ==> r == (ActionView::Answer {
                output: OutputView { content: "unknown tool: "@ + call.name, is_error: true },
            })
        }),
{
    reveal_strlit("bash");
    reveal_strlit("read_file");
    reveal_strlit("write_file");
    assert("bash"@.len() == 4 && "read_file"@.len() == 9 && "write_file"@.len() == 10);
}

/// The texts of a reply stand one below the other, each of them once and in their order;
/// empty ones at the front leave no line.
pub proof fn law_texts_are_gathered(texts: Seq<Seq<char>>)
    ensures
        texts.len() > 0 && texts[0].len() > 0 ==> gathered(texts) == text::joined(texts, seq!['\n']),
        texts.len() > 0 && texts[0].len() == 0 ==> gathered(texts) == gathered(texts.drop_first()),
        texts.len() == 0 ==> gathered(texts).len() == 0,
    decreases texts.len(),
{
    if texts.len() > 1 {
        let front = texts.drop_last();
        assert(front[0] == texts[0]);
        law_texts_are_gathered(front);
        if texts[0].len() > 0 {
            lemma_joined_begins(front);
            assert(gathered(texts) =~= text::joined(texts, seq!['\n']));
        } else {
            assert(texts.drop_first().drop_last() =~= front.drop_first());
        }
    } else if texts.len() == 1 {
        let none = Seq::<Seq<char>>::empty();
        assert(texts.drop_last() =~= none);
        assert(texts.drop_first() =~= none);
        assert(gathered(none).len() == 0);
        assert(gathered(texts) =~= texts[0]);
        assert(gathered(texts.drop_first()) =~= Seq::<char>::empty());
    }
}

/// Texts of which the first is not empty are not empty when joined.
proof fn lemma_joined_begins(texts: Seq<Seq<char>>)
    requires
        texts.len() > 0,
        texts[0].len() > 0,
    ensures
        text::joined(texts, seq!['\n']).len() > 0,
{
}

/// The server is asked for the query, and for as many results as were asked for; where no
/// number was given, none is told.
pub proof fn law_search_is_asked_for(query: Seq<char>, n: u64)
    ensures
        json::member_text(search_request(query, None), "query"@) == Some(query),
        json::member(search_request(query, None), "count"@) is None,
        json::member_text(search_request(query, Some(n)), "query"@) == Some(query),
        json::member_u64(search_request(query, Some(n)), "count"@) == Some(n),
{
    reveal_strlit("query");
    reveal_strlit("count");
    assert("query"@[0] != "count"@[0]);
    let e = json::empty_object();
    json::lemma_with_member(e, "query"@, JsonView::Text(query));
    json::lemma_with_member(
        json::with_member(e, "query"@, JsonView::Text(query)),
        "count"@,
        JsonView::Number(json::NumberView::PosInt(n)),
    );
}

/// Whether an offer is of a tool of this name that needs these arguments.
pub open spec fn offers(s: SpecView, name: Seq<char>, needed: Seq<Seq<char>>) -> bool {
    &&& s.name == name
    &&& json::member_text(s.parameters, "type"@) == Some("object"@)
    &&& json::member(s.parameters, "required"@) == Some(json::text_array(needed))
    &&& json::member(s.parameters, "properties"@) matches Some(p) && forall|i: int|
        0 <= i < needed.len() ==> (json::member(p, #[trigger] needed[i]) matches Some(d)
            && json::member_text(d, "type"@) == Some("string"@))
}

/// What the schema of a parameter says.
proof fn lemma_parameter(kind: Seq<char>, description: Seq<char>)
    ensures
        json::in_order(parameter(kind, description)),
        json::member_text(parameter(kind, description), "type"@) == Some(kind),
        json::member_text(parameter(kind, description), "description"@) == Some(description),
{
    reveal_strlit("type");
    reveal_strlit("description");
    assert("type"@.len() == 4 && "description"@.len() == 11);
    let e = json::empty_object();
    json::lemma_with_member(e, "type"@, JsonView::Text(kind));
    json::lemma_with_member(
        json::with_member(e, "type"@, JsonView::Text(kind)),
        "description"@,
        JsonView::Text(description),
    );
}

/// What the schema of parameters says.
proof fn lemma_schema(properties: JsonView, required: Seq<Seq<char>>)
    ensures
        json::member_text(schema(properties, required), "type"@) == Some("object"@),
        json::member(schema(properties, required), "properties"@) == Some(properties),
        json::member(schema(properties, required), "required"@) == Some(json::text_array(required)),
{
    reveal_strlit("type");
    reveal_strlit("properties");
    reveal_strlit("required");
    assert("type"@.len() == 4 && "properties"@.len() == 10 && "required"@.len() == 8);
    let e = json::empty_object();
    let a = json::with_member(e, "type"@, JsonView::Text("object"@));
    json::lemma_with_member(e, "type"@, JsonView::Text("object"@));
    json::lemma_with_member(a, "properties"@, properties);
    json::lemma_with_member(
        json::with_member(a, "properties"@, properties),
        "required"@,
        json::text_array(required),
    );
}

/// The tools that run a command, read a file, write one, keep a fact and read the memory
/// are always offered, and the search where it can be had; each with the arguments that it
/// cannot do without.
pub proof fn law_tools_are_offered(web_search: bool)
    ensures
        ({
            let s = offered(web_search);
            &&& s.len() == (if web_search {
                6int
            } else {
                5
            })
            &&& offers(s[0], "bash"@, seq!["command"@])
            &&& offers(s[1], "read_file"@, seq!["path"@])
            &&& offers(s[2], "write_file"@, seq!["path"@, "content"@])
            &&& offers(s[3], "save_memory"@, seq!["content"@])
            &&& offers(s[4], "read_memory"@, seq!["path"@])
            &&& web_search ==> offers(s[5], "web_search"@, seq!["query"@])
        }),
{
    lemma_offer_of_host();
    lemma_offer_of_memory();
    lemma_offer_of_search();
}

/// The offers of the host's tools.
proof fn lemma_offer_of_host()
    ensures
        offers(bash_spec(), "bash"@, seq!["command"@]),
        offers(read_file_spec(), "read_file"@, seq!["path"@]),
        offers(write_file_spec(), "write_file"@, seq!["path"@, "content"@]),
{
    reveal_strlit("path");
    reveal_strlit("content");
    assert("path"@.len() == 4 && "content"@.len() == 7);
    let e = json::empty_object();
    let c = parameter("string"@, "The bash command to run"@);
    lemma_parameter("string"@, "The bash command to run"@);
    json::lemma_with_member(e, "command"@, c);
    lemma_schema(json::with_member(e, "command"@, c), seq!["command"@]);
    let p = parameter("string"@, "Absolute or relative file path"@);
    lemma_parameter("string"@, "Absolute or relative file path"@);
    json::lemma_with_member(e, "path"@, p);
    lemma_schema(json::with_member(e, "path"@, p), seq!["path"@]);
    let q = parameter("string"@, "File path to write"@);
    let t = parameter("string"@, "Text content to write"@);
    lemma_parameter("string"@, "File path to write"@);
    lemma_parameter("string"@, "Text content to write"@);
    json::lemma_with_member(e, "path"@, q);
    let w = json::with_member(e, "path"@, q);
    json::lemma_with_member(w, "content"@, t);
    lemma_schema(json::with_member(w, "content"@, t), seq!["path"@, "content"@]);
}

/// The offers of the tools of the memory.
proof fn lemma_offer_of_memory()
    ensures
        offers(save_memory_spec(), "save_memory"@, seq!["content"@]),
        offers(read_memory_spec(), "read_memory"@, seq!["path"@]),
{
    reveal_strlit("path");
    reveal_strlit("content");
    reveal_strlit("category");
    reveal_strlit("importance");
    assert("path"@.len() == 4 && "content"@.len() == 7 && "category"@.len() == 8
        && "importance"@.len() == 10);
    let e = json::empty_object();
    let r = parameter("string"@, "Memory file name, e.g. preferences.md"@);
    lemma_parameter("string"@, "Memory file name, e.g. preferences.md"@);
    json::lemma_with_member(e, "path"@, r);
    lemma_schema(json::with_member(e, "path"@, r), seq!["path"@]);
    let said = "The fact to remember, written as a short self-contained statement"@;
    lemma_parameter("string"@, said);
    let a = json::with_member(e, "content"@, parameter("string"@, said));
    json::lemma_with_member(e, "content"@, parameter("string"@, said));
    let p = parameter(
        "string"@,
        "Memory file to write to, e.g. project-x.md. Overrides category and is created if it doesn't exist. Omit to use a canonical file."@,
    );
    let b = json::with_member(a, "path"@, p);
    json::lemma_with_member(a, "path"@, p);
    let c = json::with_member(
        parameter("string"@, "Which canonical file to use when `path` is omitted"@),
        "enum"@,
        json::text_array(seq!["preference"@, "identity"@, "goal"@, "note"@]),
    );
    let d = json::with_member(b, "category"@, c);
    json::lemma_with_member(b, "category"@, c);
    let n = parameter("number"@, "How important this is, 0-5 (default 3)"@);
    json::lemma_with_member(d, "importance"@, n);
    lemma_schema(json::with_member(d, "importance"@, n), seq!["content"@]);
}

/// The offer of the search.
proof fn lemma_offer_of_search()
    ensures
        offers(web_search_spec(), "web_search"@, seq!["query"@]),
{
    reveal_strlit("query");
    reveal_strlit("count");
    assert("query"@[0] != "count"@[0]);
    let e = json::empty_object();
    let q = parameter("string"@, "Search query"@);
    lemma_parameter("string"@, "Search query"@);
    let a = json::with_member(e, "query"@, q);
    json::lemma_with_member(e, "query"@, q);
    let n = parameter("number"@, "Number of results (default 5, max 20)"@);
    json::lemma_with_member(a, "count"@, n);
    lemma_schema(json::with_member(a, "count"@, n), seq!["query"@]);
}

/// What is told of a file that was written is how many bytes its text takes, and its path.
pub proof fn law_written_bytes_are_told(path: Seq<char>, content: Seq<char>)
    ensures
        text::begins(
            wrote(path, content),
            "wrote "@ + digits::decimal(vstd::utf8::encode_utf8(content).len()) + " bytes"@,
        ),
        text::ends(wrote(path, content), " to "@ + path),
{
    reveal_strlit(" bytes to ");
    reveal_strlit(" bytes");
    reveal_strlit(" to ");
    let s = wrote(path, content);
    let head = "wrote "@ + digits::decimal(vstd::utf8::encode_utf8(content).len()) + " bytes"@;
    let tail = " to "@ + path;
    assert(s.subrange(0, head.len() as int) =~= head);
    assert(s.subrange(s.len() - tail.len(), s.len() as int) =~= tail);
}

/// The search server's script is below the home directory, whether or not the path of that
/// ends with a slash.
pub proof fn law_script_is_below_home(home: Seq<char>)
    requires
        home.len() > 0,
        home.last() != '/',
    ensures
        script_below(home) == script_below(home.push('/')),
        script_below(home) == home + "/.config/opencode/mcp/brave-search.mjs"@,
{
    reveal_strlit("/");
    reveal_strlit(".config/opencode/mcp/brave-search.mjs");
    reveal_strlit("/.config/opencode/mcp/brave-search.mjs");
    let script = ".config/opencode/mcp/brave-search.mjs"@;
    assert("/.config/opencode/mcp/brave-search.mjs"@ =~= "/"@ + script);
    assert(home + "/"@ + script =~= home.push('/') + script);
    assert(home + "/"@ + script =~= home + ("/"@ + script));
}

} // verus!
