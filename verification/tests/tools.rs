use pi_chat::json;
use pi_chat::shell::{fresh_sentinel, script, shell_output, OutputReader, ShellResult};
use pi_chat::tools::{
    brave_script_path, gather, host_action, is_gated, read_file_output, search_arguments,
    search_begins, search_connected, search_replied, tool_specs, truncate, write_file_output,
    ApprovalRegistry, HostAction, SearchReply, SearchStep, ToolCall,
};

fn call(name: &str, arguments: &str) -> ToolCall {
    ToolCall {
        id: "t5".to_string(),
        name: name.to_string(),
        arguments: json::parse(arguments).unwrap(),
    }
}

#[test]
fn tool_specs_shape() {
    let with = tool_specs(true);
    assert_eq!(with.len(), 6);
    let without = tool_specs(false);
    assert_eq!(without.len(), 5);
    assert!(is_gated("bash"));
    assert!(!is_gated("web_search"));
    assert!(!is_gated("save_memory"));
    assert!(!is_gated("read_memory"));
}

#[test]
fn tool_specs_are_exact() {
    let specs = tool_specs(true);
    let names: Vec<&str> = specs.iter().map(|s| s.name.as_str()).collect();
    assert_eq!(
        names,
        ["bash", "read_file", "write_file", "save_memory", "read_memory", "web_search"]
    );
    assert_eq!(
        json::to_text(&specs[0].parameters),
        r#"{"properties":{"command":{"description":"The bash command to run","type":"string"}},"required":["command"],"type":"object"}"#
    );
    let category = specs[3].parameters.get("properties").unwrap().get("category").unwrap();
    assert_eq!(
        json::to_text(category.get("enum").unwrap()),
        r#"["preference","identity","goal","note"]"#
    );
}

#[test]
fn approval_registry_resolves_once() {
    let mut reg = ApprovalRegistry::default();
    let ticket = reg.register("call-1".into());
    assert!(reg.resolve("call-1", true));
    assert!(!reg.resolve("call-1", true)); // already resolved
    assert_eq!(reg.verdict(ticket), Some(true));
}

#[test]
fn missing_args_become_tool_errors() {
    match host_action(&call("read_file", "{}")) {
        HostAction::Answer { output } => {
            assert!(output.is_error);
            assert!(output.content.contains("missing"));
        }
        _ => panic!("no answer"),
    }
}

#[test]
fn host_actions() {
    let answer = |c: ToolCall| match host_action(&c) {
        HostAction::Answer { output } => output.content,
        _ => panic!("no answer"),
    };
    assert_eq!(answer(call("bash", r#"{"command": 1}"#)), "bash: missing 'command' argument");
    assert_eq!(
        answer(call("write_file", r#"{"path": "x"}"#)),
        "write_file: missing 'path' or 'content' argument"
    );
    assert_eq!(answer(call("rm", "{}")), "unknown tool: rm");
    assert!(matches!(
        host_action(&call("write_file", r#"{"path": "x", "content": "y"}"#)),
        HostAction::Write { path, content } if path == "x" && content == "y"
    ));
    assert!(matches!(
        host_action(&call("read_file", r#"{"path": "x"}"#)),
        HostAction::Read { path } if path == "x"
    ));
}

#[test]
fn write_and_read_file_roundtrip() {
    let w = write_file_output("/tmp/x", "dätä", Ok(()));
    assert!(!w.is_error, "{}", w.content);
    assert_eq!(w.content, "wrote 6 bytes to /tmp/x");
    let r = read_file_output(Ok("data".to_string()));
    assert!(!r.is_error);
    assert_eq!(r.content, "data");
    let r = read_file_output(Err("gone".to_string()));
    assert_eq!((r.content.as_str(), r.is_error), ("read_file: gone", true));
    let w = write_file_output("/x", "", Err("full".to_string()));
    assert_eq!((w.content.as_str(), w.is_error), ("write_file: full", true));
}

#[test]
fn output_is_cut() {
    let long = "é".repeat(20_001);
    let cut = truncate(long);
    assert_eq!(cut, format!("{}\n…[truncated]", "é".repeat(20_000)));
    let fits = "x".repeat(20_000);
    assert_eq!(truncate(fits.clone()), fits);
}

// ---------- web search ----------

#[test]
fn a_search_is_tried_again_once() {
    assert!(matches!(search_begins(true), SearchStep::Connect));
    assert!(matches!(search_connected(Ok(())), SearchStep::Ask));
    assert!(matches!(search_replied(false, Err("dead".to_string())), SearchStep::Reconnect));
    match search_replied(true, Err("dead".to_string())) {
        SearchStep::Answer { output } => {
            assert_eq!((output.content.as_str(), output.is_error), ("web_search: dead", true));
        }
        _ => panic!("tried again"),
    }
}

#[test]
fn a_search_says_why_it_fails() {
    match search_begins(false) {
        SearchStep::Answer { output } => assert_eq!(
            output.content,
            "web_search: MCP server script not found (~/.config/opencode/mcp/brave-search.mjs)"
        ),
        _ => panic!("begins"),
    }
    match search_connected(Err("spawn MCP server: x".to_string())) {
        SearchStep::Answer { output } => {
            assert_eq!(output.content, "web_search: spawn MCP server: x");
        }
        _ => panic!("connected"),
    }
}

#[test]
fn a_reply_is_gathered() {
    let texts = |v: &[&str]| v.iter().map(|s| s.to_string()).collect::<Vec<String>>();
    assert_eq!(gather(&texts(&["", "a", "", "b"])), "a\n\nb");
    let reply = SearchReply { texts: texts(&["a", "b"]), is_error: Some(true) };
    match search_replied(false, Ok(reply)) {
        SearchStep::Answer { output } => {
            assert_eq!((output.content.as_str(), output.is_error), ("a\nb", true));
        }
        _ => panic!("no answer"),
    }
    assert_eq!(
        json::to_text(&search_arguments("q", Some(5))),
        r#"{"count":5,"query":"q"}"#
    );
    assert_eq!(json::to_text(&search_arguments("q", None)), r#"{"query":"q"}"#);
}

#[test]
fn the_script_is_below_home() {
    let script = ".config/opencode/mcp/brave-search.mjs";
    assert_eq!(brave_script_path(Some("/home/x")), format!("/home/x/{script}"));
    assert_eq!(brave_script_path(Some("/")), format!("/{script}"));
    assert_eq!(brave_script_path(None), format!("/home/rp/{script}"));
    assert_eq!(brave_script_path(Some("")), script);
}

// ---------- shell ----------

fn run(lines: &[&str]) -> Option<(String, i32)> {
    let mut reader = OutputReader::new("__S__".to_string());
    for line in lines {
        if let Some(code) = reader.line(line) {
            return Some((reader.finish(), code));
        }
    }
    None
}

fn told(result: ShellResult) -> (String, bool, bool) {
    let (out, reset) = shell_output(result);
    (out.content, out.is_error, reset)
}

#[test]
fn output_is_kept_up_to_a_bound() {
    let (output, _) = run(&["a\n", "b __S__\n", "\n", "__S__0\n"]).unwrap();
    assert_eq!(output, "a\nb __S__\n\n");
    let long = "x".repeat(79_999);
    let (output, code) = run(&[&long, "last\n", "lost\n", "__S__7\n"]).unwrap();
    assert_eq!(output, format!("{long}last\n"));
    assert_eq!(code, 7);
}

#[test]
fn output_that_can_be_shown_is_kept_whole() {
    let line = format!("{}\n", "€".repeat(100));
    let mut lines = vec![line.as_str(); 150];
    lines.push("__S__0\n");
    let (output, code) = run(&lines).unwrap();
    assert_eq!(output, line.repeat(150));
    let (content, is_error, _) = told(ShellResult::Finished { output, code });
    assert!(!is_error);
    assert_eq!(content, line.repeat(150).trim_end());
}

#[test]
fn bash_runs_and_reports_output() {
    let (output, code) = run(&["hello\n", "\n", "__S__0\n"]).unwrap();
    let (content, is_error, reset) = told(ShellResult::Finished { output, code });
    assert!(!is_error);
    assert!(!reset);
    assert_eq!(content, "hello");
}

#[test]
fn bash_error_is_tool_error_not_panic() {
    let (output, code) = run(&["\n", "__S__3\n"]).unwrap();
    let (content, is_error, _) = told(ShellResult::Finished { output, code });
    assert!(is_error);
    assert!(content.contains("exit: 3"));
    assert_eq!(content, "[exit: 3]");
}

#[test]
fn stderr_and_exit_code_are_reported() {
    let (output, code) = run(&["oops\n", "\n", "__S__3\n"]).unwrap();
    let (content, is_error, _) = told(ShellResult::Finished { output, code });
    assert!(is_error);
    assert!(content.contains("oops"), "{content}");
    assert!(content.contains("[exit: 3]"), "{content}");
    assert_eq!(content, "oops\n[exit: 3]");
}

#[test]
fn timeout_resets_session() {
    let (content, is_error, reset) = told(ShellResult::TimedOut { seconds: 2 });
    assert!(is_error);
    assert!(reset);
    assert!(content.contains("timed out"), "{content}");
    assert_eq!(content, "bash: timed out after 2s");
    let (content, is_error, reset) = told(ShellResult::Broken { error: "shell exited".into() });
    assert_eq!((content.as_str(), is_error, reset), ("bash: shell exited", true, true));
}

#[test]
fn heredoc_commands_work() {
    assert_eq!(
        script("cat <<EOF\nhi there\nEOF", "__S__"),
        "exec 2>&1\ncat <<EOF\nhi there\nEOF\nprintf '\\n__S__%s\\n' \"$?\"\n"
    );
    assert_eq!(
        script("ls", "__S__"),
        "exec 2>&1\nls </dev/null\nprintf '\\n__S__%s\\n' \"$?\"\n"
    );
}

#[test]
fn the_reader_keeps_in_step() {
    assert_eq!(run(&["a\n", "b"]), None);
    assert_eq!(run(&["__S__x\n"]), Some((String::new(), -1)));
    assert_eq!(run(&["__S__ -7 \n"]), Some((String::new(), -7)));
    let long = "x".repeat(80_000);
    let (output, code) = run(&[&long, "dropped", "__S__0"]).unwrap();
    assert_eq!(output.len(), 80_000);
    assert_eq!(code, 0);
    let (output, _) = run(&[&long[1..], "kept", "__S__0"]).unwrap();
    assert_eq!(output.len(), 80_003);
}

#[test]
fn sentinels_differ() {
    let (a, b) = (fresh_sentinel(), fresh_sentinel());
    assert_ne!(a, b);
    assert!(a.starts_with("__PI_DONE_") && a.ends_with("__"));
    assert_eq!(a.len(), 10 + 32 + 2);
}
