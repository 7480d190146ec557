use pi_chat::clock::{civil_from_days, date_of, today_utc};
use pi_chat::entries::{parse_entries, serialize_entries, unquote, yaml_quote, MemoryEntry};
use pi_chat::json;
use pi_chat::memory::{
    canonical_file, change_failed, execute_tool, execute_tool_on, infer_category, Change, FileText,
    MemoryState,
};
use pi_chat::naming::{derive_summary, derive_title, normalize_name};
use pi_chat::tools::ToolCall;

const ABSENT: &str = "No such file or directory (os error 2)";
const CANONICAL: [&str; 4] = ["preferences.md", "identity.md", "goals.md", "notes.md"];

fn state() -> MemoryState {
    match MemoryState::load(Vec::new(), ABSENT.to_string()) {
        Ok(s) => s,
        Err(e) => panic!("{e}"),
    }
}

fn call(name: &str, arguments: &str) -> ToolCall {
    ToolCall {
        id: "t".to_string(),
        name: name.to_string(),
        arguments: json::parse(arguments).unwrap(),
    }
}

fn entry(title: &str, body: &str) -> MemoryEntry {
    MemoryEntry {
        title: title.to_string(),
        category: "note".to_string(),
        importance: 2,
        created: "2026-09-10".to_string(),
        source_conversation: Some("conv_x".to_string()),
        summary: "One line.".to_string(),
        body: body.to_string(),
    }
}

fn fields(e: &MemoryEntry) -> (String, String, u8, String, Option<String>, String, String) {
    (
        e.title.clone(),
        e.category.clone(),
        e.importance,
        e.created.clone(),
        e.source_conversation.clone(),
        e.summary.clone(),
        e.body.clone(),
    )
}

#[test]
fn load_creates_canonical_files_and_index() {
    let s = state();
    for file in CANONICAL {
        assert!(s.read_file(file).is_ok(), "{file} missing");
    }
    let index = s.read_file("index.md").unwrap();
    assert!(index.contains("No memories saved yet"));
    assert_eq!(index, "# Memory index\n\n_No memories saved yet._\n");
}

#[test]
fn load_notes_what_it_creates() {
    let mut s = state();
    let changes = s.take_changes();
    assert_eq!(changes.len(), 5);
    for (i, file) in CANONICAL.iter().enumerate() {
        assert!(matches!(&changes[i], Change::Create { name } if name == file));
    }
    assert!(matches!(&changes[4], Change::Write { name, .. } if name == "index.md"));
    assert!(s.take_changes().is_empty());
}

#[test]
fn load_keeps_what_is_there() {
    let files = vec![
        ("notes.md".to_string(), FileText::Readable("hello".to_string())),
        ("index.md".to_string(), FileText::Readable("mine".to_string())),
    ];
    let mut s = match MemoryState::load(files, ABSENT.to_string()) {
        Ok(s) => s,
        Err(e) => panic!("{e}"),
    };
    assert_eq!(s.read_file("notes.md").unwrap(), "hello");
    assert_eq!(s.read_file("index.md").unwrap(), "mine");
    assert_eq!(s.take_changes().len(), 3);
}

#[test]
fn load_fails_where_a_file_cannot_be_read() {
    let files = vec![("notes.md".to_string(), FileText::Unreadable("denied".to_string()))];
    match MemoryState::load(files, ABSENT.to_string()) {
        Ok(_) => panic!("loaded"),
        Err(e) => assert_eq!(e, "read notes.md: denied"),
    }
}

#[test]
fn save_entry_writes_frontmatter_and_regenerates_index() {
    let mut s = state();
    let (file, entry) = s
        .save_entry(
            "User prefers dark mode. Dislikes bright themes.",
            None,
            Some("preference"),
            4,
            "conv_1",
        )
        .unwrap();
    assert_eq!(file, "preferences.md");
    assert_eq!(entry.category, "preference");
    assert_eq!(entry.importance, 4);
    assert_eq!(entry.source_conversation.as_deref(), Some("conv_1"));

    let raw = s.read_file("preferences.md").unwrap();
    assert!(raw.contains("title: \""));
    assert!(raw.contains("category: preference"));
    assert!(raw.contains("importance: 4"));
    assert!(raw.contains("source_conversation: \"conv_1\""));
    assert!(raw.contains(&entry.body));

    let index = s.read_file("index.md").unwrap();
    assert!(index.contains("preferences.md"));
    assert!(index.contains(&entry.title));
    assert!(index.contains(&entry.summary));
}

#[test]
fn save_entry_writes_exact_text() {
    let mut s = state();
    s.save_entry_on("Likes \"tea\". A lot.", None, Some(" Preference "), 9, "c1", "2026-01-02")
        .unwrap();
    assert_eq!(
        s.read_file("preferences.md").unwrap(),
        "---\ntitle: \"Likes \\\"tea\\\"\"\ncategory: preference\nimportance: 5\n\
         created: 2026-01-02\nsource_conversation: \"c1\"\n\
         summary: \"Likes \\\"tea\\\".…\"\n---\nLikes \"tea\". A lot.\n"
    );
    assert_eq!(
        s.read_file("index.md").unwrap(),
        "# Memory index\n\n## preferences.md\n- Likes \"tea\" — Likes \"tea\".…\n"
    );
}

#[test]
fn save_entry_updates_existing_title_instead_of_duplicating() {
    let mut s = state();
    s.save_entry("Likes tea.", None, Some("preference"), 1, "c1").unwrap();
    s.save_entry("Likes tea. Also likes coffee.", None, Some("preference"), 5, "c2").unwrap();
    let entries = s.read_entries("preferences.md").unwrap();
    assert_eq!(entries.len(), 1);
    assert_eq!(entries[0].importance, 5);
    assert_eq!(entries[0].source_conversation.as_deref(), Some("c2"));
    assert!(entries[0].body.contains("coffee"));
}

#[test]
fn save_entry_keeps_the_first_title_and_day() {
    let mut s = state();
    s.save_entry_on("Likes tea.", None, Some("note"), -3, "c1", "2026-01-02").unwrap();
    s.save_entry_on("LIKES TEA. Really.", None, Some("note"), 2, "c2", "2026-03-04").unwrap();
    let entries = s.read_entries("notes.md").unwrap();
    assert_eq!(entries.len(), 1);
    assert_eq!(entries[0].title, "Likes tea");
    assert_eq!(entries[0].created, "2026-01-02");
    assert_eq!(entries[0].importance, 2);
    assert_eq!(entries[0].body, "LIKES TEA. Really.");
}

#[test]
fn save_entry_can_target_a_custom_or_existing_file() {
    let mut s = state();
    let (file, entry) = s
        .save_entry("Project X uses Rust.", Some("project-x.md"), None, 2, "c")
        .unwrap();
    assert_eq!(file, "project-x.md");
    assert_eq!(entry.category, "note"); // inferred for a non-canonical file
    assert!(s.read_file("project-x.md").is_ok());

    // The custom file appears in the index and is readable on demand.
    let index = s.read_file("index.md").unwrap();
    assert!(index.contains("project-x.md"));
    assert!(index.contains(&entry.title));
    assert!(s.read_body("project-x.md").unwrap().contains("Rust"));

    // Writing the same fact to the existing file updates in place.
    let (file2, _) = s
        .save_entry("Project X uses Rust.", Some("project-x.md"), None, 3, "c2")
        .unwrap();
    assert_eq!(file2, "project-x.md");
    let entries = s.read_entries("project-x.md").unwrap();
    assert_eq!(entries.len(), 1);
    assert_eq!(entries[0].importance, 3);

    // A path overrides the category mapping.
    let (file3, _) = s
        .save_entry("Actually likes light mode.", Some("project-x.md"), Some("preference"), 4, "c3")
        .unwrap();
    assert_eq!(file3, "project-x.md");
    assert!(s.read_entries("preferences.md").unwrap().is_empty());
}

#[test]
fn categories_route_to_canonical_files() {
    let mut s = state();
    s.save_entry("Name is Ravi", None, Some("identity"), 3, "c").unwrap();
    s.save_entry("Ship v1", None, Some("goal"), 2, "c").unwrap();
    s.save_entry("A random note", None, Some("note"), 0, "c").unwrap();
    assert!(!s.read_entries("identity.md").unwrap().is_empty());
    assert!(!s.read_entries("goals.md").unwrap().is_empty());
    assert!(!s.read_entries("notes.md").unwrap().is_empty());
    assert!(s.read_entries("preferences.md").unwrap().is_empty());
    assert!(s.save_entry("x", None, Some("bogus"), 3, "c").is_err());
    assert!(s.save_entry("x", None, None, 3, "c").is_err());
}

#[test]
fn save_entry_says_why_it_refuses() {
    let mut s = state();
    assert_eq!(
        s.save_entry("  \n ", None, Some("note"), 3, "c").unwrap_err(),
        "save_memory: 'content' is empty"
    );
    assert_eq!(
        s.save_entry("x", Some("  "), Some(" Bogus "), 3, "c").unwrap_err(),
        "save_memory: unknown category 'bogus' (use preference, identity, goal, or note)"
    );
    assert_eq!(
        s.save_entry("x", None, Some("  "), 3, "c").unwrap_err(),
        "save_memory: provide either 'path' or 'category'"
    );
    assert_eq!(
        s.save_entry("x", Some("../x.md"), None, 3, "c").unwrap_err(),
        "invalid memory path: '../x.md' (expected a .md file name)"
    );
}

#[test]
fn read_body_strips_frontmatter() {
    let mut s = state();
    s.save_entry("Prefers dark mode.", None, Some("preference"), 3, "c").unwrap();
    let body = s.read_body("preferences.md").unwrap();
    assert_eq!(body, "Prefers dark mode.");
    assert!(!body.contains("---"));
}

#[test]
fn read_body_joins_entries_and_falls_back_to_the_text() {
    let mut s = state();
    s.save_entry("One.", None, Some("note"), 3, "c").unwrap();
    s.save_entry("Two.", None, Some("note"), 3, "c").unwrap();
    assert_eq!(s.read_body("memory/Notes.MD").unwrap(), "One.\n\n---\n\nTwo.");
    s.write_file("free.md", "  just text\n").unwrap();
    assert_eq!(s.read_body("./free.md").unwrap(), "just text");
    assert_eq!(s.read_body("none.md").unwrap_err(), format!("read none.md: {ABSENT}"));
}

#[test]
fn edit_and_delete_refresh_index() {
    let mut s = state();
    s.save_entry("Prefers dark mode.", None, Some("preference"), 3, "c").unwrap();
    s.write_file("preferences.md", "").unwrap();
    assert!(s.read_file("index.md").unwrap().contains("No memories"));
    assert!(s.write_file("index.md", "x").is_err());
    assert!(s.delete_file("index.md").is_err());
    s.delete_file("preferences.md").unwrap();
    assert!(s.read_file("preferences.md").is_err());
}

#[test]
fn edit_and_delete_note_their_changes() {
    let mut s = state();
    let _ = s.take_changes();
    s.write_file("x.md", "text").unwrap();
    let changes = s.take_changes();
    assert_eq!(changes.len(), 2);
    assert!(
        matches!(&changes[0], Change::Write { name, content } if name == "x.md" && content == "text")
    );
    assert!(matches!(&changes[1], Change::Write { name, .. } if name == "index.md"));
    s.delete_file("x.md").unwrap();
    let changes = s.take_changes();
    assert!(matches!(&changes[0], Change::Delete { name } if name == "x.md"));
    assert_eq!(change_failed(&changes[0], "busy"), "delete x.md: busy");
    assert_eq!(change_failed(&changes[1], "busy"), "write index.md: busy");
    assert_eq!(
        s.write_file("index.md", "x").unwrap_err(),
        "index.md is generated automatically and cannot be edited"
    );
    assert_eq!(
        s.delete_file("index.md").unwrap_err(),
        "index.md is generated automatically and cannot be deleted"
    );
    assert!(s.take_changes().is_empty());
}

#[test]
fn listing_is_sorted_and_marks_the_index() {
    let mut s = state();
    s.write_file("alpha.md", "a").unwrap();
    let files = s.list_files().unwrap();
    let names: Vec<&str> = files.iter().map(|f| f.name.as_str()).collect();
    assert_eq!(
        names,
        ["alpha.md", "goals.md", "identity.md", "index.md", "notes.md", "preferences.md"]
    );
    assert!(files.iter().all(|f| f.generated == (f.name == "index.md")));
    assert_eq!(files[0].content, "a");
}

#[test]
fn listing_shows_unreadable_files_empty() {
    let files = vec![
        ("index.md".to_string(), FileText::Readable(String::new())),
        ("odd.md".to_string(), FileText::Unreadable("denied".to_string())),
        ("notes.txt".to_string(), FileText::Readable("no".to_string())),
    ];
    let mut s = MemoryState::at(files, ABSENT.to_string());
    let listed = s.list_files().unwrap();
    let odd = listed.iter().find(|f| f.name == "odd.md").unwrap();
    assert_eq!(odd.content, "");
    assert!(listed.iter().all(|f| f.name != "notes.txt"));
}

#[test]
fn index_lists_canonical_files_before_others() {
    let mut s = state();
    s.save_entry("Alpha", Some("alpha.md"), None, 1, "c").unwrap();
    s.save_entry("Note", None, Some("note"), 1, "c").unwrap();
    let index = s.read_file("index.md").unwrap();
    assert_eq!(
        index,
        "# Memory index\n\n## notes.md\n- Note — Note\n\n## alpha.md\n- Alpha — Alpha\n"
    );
}

#[test]
fn context_holds_the_index() {
    let mut s = state();
    s.save_entry("Note", None, Some("note"), 1, "c").unwrap();
    let block = s.context_block();
    assert!(block.starts_with("## Long-term memory\nYou have a long-term memory"));
    assert!(block.ends_with("## notes.md\n- Note — Note"));
    let unread = MemoryState::at(Vec::new(), ABSENT.to_string());
    assert_eq!(unread.context_block(), "");
}

#[test]
fn normalize_name_rejects_traversal_and_non_md() {
    assert!(normalize_name("../../etc/passwd").is_err());
    assert!(normalize_name("preferences.txt").is_err());
    assert!(normalize_name("sub/dir.md").is_err());
    assert_eq!(normalize_name("memory/Preferences.MD").unwrap(), "preferences.md");
    assert_eq!(normalize_name("./notes.md").unwrap(), "notes.md");
}

#[test]
fn normalize_name_edge_cases() {
    assert_eq!(normalize_name("  ././a.md ").unwrap(), "a.md");
    assert_eq!(normalize_name(".md").unwrap(), ".md");
    assert!(normalize_name("a..md").is_err());
    assert!(normalize_name("a\\b.md").is_err());
    assert_eq!(
        normalize_name("").unwrap_err(),
        "invalid memory path: '' (expected a .md file name)"
    );
    // A name that was accepted is accepted again.
    let name = normalize_name("./Memory.md").unwrap();
    assert_eq!(normalize_name(&name).unwrap(), name);
}

#[test]
fn entries_roundtrip_through_serialize_parse() {
    let e = MemoryEntry {
        title: "A \"quoted\" title".into(),
        category: "note".into(),
        importance: 2,
        created: "2026-09-10".into(),
        source_conversation: Some("conv_x".into()),
        summary: "One line.".into(),
        body: "line one\nline two".into(),
    };
    let text = serialize_entries(&vec![e.clone()]);
    let parsed = parse_entries(&text);
    assert_eq!(parsed.len(), 1);
    assert_eq!(fields(&parsed[0]), fields(&e));
}

#[test]
fn several_entries_round_trip() {
    let mut second = entry("back\\slash \\\" and more", "");
    second.source_conversation = None;
    let all = vec![entry("First", "a\n\nb"), second, entry("", "c: d")];
    let parsed = parse_entries(&serialize_entries(&all));
    assert_eq!(parsed.len(), 3);
    for (a, b) in parsed.iter().zip(all.iter()) {
        assert_eq!(fields(a), fields(b));
    }
}

#[test]
fn parsing_takes_what_it_finds() {
    assert!(parse_entries("no rules here").is_empty());
    assert!(parse_entries("---\ntitle: open").is_empty());
    assert!(parse_entries("---\nno fields\n---\nbody").is_empty());
    let e = &parse_entries("---\nTITLE : 'x'\ntitle: y\nimportance: many\n---\n\n body \n")[0];
    assert_eq!(e.title, "y");
    assert_eq!(e.importance, 0);
    assert_eq!(e.source_conversation, None);
    assert_eq!(e.body, "body");
    let two = parse_entries("---\ntitle: a\n---\r\nx\r\n---\ntitle: b\n---\ny");
    assert_eq!(two.len(), 2);
    assert_eq!(two[0].body, "x");
    assert_eq!(two[1].title, "b");
}

#[test]
fn quoting_is_undone() {
    for s in ["", "plain", "a \"b\"", "back\\slash", "\\\"", "\\\\\"\"", "'x'"] {
        assert_eq!(unquote(&yaml_quote(s)), s);
    }
    assert_eq!(yaml_quote("a\"b\\"), "\"a\\\"b\\\\\"");
    assert_eq!(unquote("'it'"), "it");
    assert_eq!(unquote("\""), "\"");
}

#[test]
fn titles_and_summaries() {
    assert_eq!(derive_title("\n  - Likes tea; and more"), "Likes tea");
    assert_eq!(derive_title("# Heading"), "Heading");
    assert_eq!(derive_title(".dotted"), ".dotted");
    assert_eq!(derive_title("***"), "Memory");
    assert_eq!(derive_title(&"x".repeat(61)), format!("{}…", "x".repeat(60)));
    assert_eq!(derive_summary("One  two.\nThree."), "One two.…");
    assert_eq!(derive_summary("One two."), "One two.");
    assert_eq!(derive_summary("   "), "");
    assert_eq!(derive_summary(&"y".repeat(161)), format!("{}…", "y".repeat(160)));
    // The first sentence is counted in characters.
    assert_eq!(derive_summary("Größe zählt. Mehr."), "Größe zählt.…");
}

#[test]
fn categories_and_files() {
    assert_eq!(canonical_file("goal").as_deref(), Some("goals.md"));
    assert_eq!(canonical_file("Goal"), None);
    assert_eq!(infer_category("identity.md"), "identity");
    assert_eq!(infer_category("other.md"), "note");
}

#[test]
fn today_is_well_formed() {
    let today = today_utc();
    assert_eq!(today.len(), 10);
    assert_eq!(&today[4..5], "-");
    assert_eq!(&today[7..8], "-");
}

#[test]
fn dates_of_known_days() {
    assert_eq!(civil_from_days(0), (1970, 1, 1));
    assert_eq!(civil_from_days(-1), (1969, 12, 31));
    assert_eq!(civil_from_days(11_016), (2000, 2, 29));
    assert_eq!(civil_from_days(19_782), (2024, 2, 29));
    assert_eq!(civil_from_days(-719_468), (0, 3, 1));
    assert_eq!(date_of(0), "1970-01-01");
    assert_eq!(date_of(1_757_894_399), "2025-09-14");
    assert_eq!(date_of(951_782_400), "2000-02-29");
}

#[test]
fn execute_tool_saves_and_reads() {
    let mut s = state();
    let save = call(
        "save_memory",
        r#"{"content": "User's name is Ravi.", "category": "identity", "importance": 5}"#,
    );
    let out = execute_tool(&save, "conv_9", &mut s);
    assert!(!out.is_error, "{}", out.content);
    assert!(out.content.contains("identity.md"));

    let read = call("read_memory", r#"{"path": "identity.md"}"#);
    let out = execute_tool(&read, "conv_9", &mut s);
    assert!(!out.is_error);
    assert!(out.content.contains("User's name is Ravi."));

    // The model may pick the file explicitly (no category needed).
    let by_path = call(
        "save_memory",
        r#"{"content": "Pinned to the tools project.", "path": "tools-project.md", "importance": 2}"#,
    );
    let out = execute_tool(&by_path, "conv_9", &mut s);
    assert!(!out.is_error, "{}", out.content);
    assert!(out.content.contains("tools-project.md"));
    assert!(s.read_body("tools-project.md").unwrap().contains("tools project"));
}

#[test]
fn tool_answers_are_exact() {
    let mut s = state();
    let today = "2026-05-06";
    let out = execute_tool_on(
        &call("save_memory", r#"{"content": "Tea", "category": "note", "importance": 2.9}"#),
        "c",
        &mut s,
        today,
    );
    assert_eq!(out.content, "Saved to notes.md (importance 2): Tea");
    let out = execute_tool_on(
        &call("save_memory", r#"{"content": "Milk", "category": "note"}"#),
        "c",
        &mut s,
        today,
    );
    assert_eq!(out.content, "Saved to notes.md (importance 3): Milk");
    let out = execute_tool_on(&call("save_memory", "{}"), "c", &mut s, today);
    assert!(out.is_error);
    assert_eq!(out.content, "save_memory: missing 'content' argument");
    let out = execute_tool_on(&call("read_memory", r#"{"path": "goals.md"}"#), "c", &mut s, today);
    assert!(!out.is_error);
    assert_eq!(out.content, "goals.md is empty.");
    let out = execute_tool_on(&call("read_memory", "{}"), "c", &mut s, today);
    assert_eq!(out.content, "read_memory: missing 'path' argument");
    let out = execute_tool_on(&call("forget", "{}"), "c", &mut s, today);
    assert!(out.is_error);
    assert_eq!(out.content, "unknown memory tool: forget");
}

#[test]
fn no_fact_is_saved_in_the_index() {
    let mut s = state();
    let before = s.read_file("index.md").unwrap();
    let refused = s.save_entry("Secret.", Some("index.md"), None, 3, "c");
    assert_eq!(
        refused.unwrap_err(),
        "index.md is generated automatically and cannot be edited"
    );
    assert_eq!(s.read_file("index.md").unwrap(), before);
    let refused = s.save_entry("Secret.", Some("index"), None, 3, "c");
    assert!(refused.is_err());
    assert_eq!(s.read_file("index.md").unwrap(), before);
}

#[test]
fn facts_are_kept_beside_what_was_written_by_hand() {
    let mut s = state();
    let by_hand = "---\ntitle: Tea\ncategory: \" odd \"\ncreated: '\"x\"'\n---\nGreen.\n";
    s.write_file("notes.md", by_hand).unwrap();
    s.save_entry("Has a cat.\nIt is called Mo.", Some("notes.md"), None, 3, "c").unwrap();
    assert_eq!(
        s.read_body("notes.md").unwrap(),
        "Green.\n\n---\n\nHas a cat.\nIt is called Mo."
    );
    let entries = s.read_entries("notes.md").unwrap();
    assert_eq!(entries.len(), 2);
    assert_eq!((entries[0].title.as_str(), entries[0].body.as_str()), ("Tea", "Green."));
    // White space and quotes within quotes do not outlast another writing.
    assert_eq!((entries[0].category.as_str(), entries[0].created.as_str()), ("odd", "x"));
    assert_eq!(entries[1].importance, 3);
    let index = s.read_file("index.md").unwrap();
    assert!(index.contains("\n## notes.md\n- Tea\n- Has a cat"));
}

#[test]
fn a_second_fact_takes_the_place_of_the_first() {
    let mut s = state();
    s.save_entry("Has a dog", None, Some("identity"), 1, "c").unwrap();
    s.save_entry("Has a cat\nIt is called Mo.", None, Some("identity"), 3, "c").unwrap();
    let (_, entry) =
        s.save_entry("HAS A CAT\nIt is called Flo.", None, Some("identity"), 5, "d").unwrap();
    assert_eq!((entry.title.as_str(), entry.importance), ("Has a cat", 5));
    assert_eq!(
        s.read_body("identity.md").unwrap(),
        "Has a dog\n\n---\n\nHAS A CAT\nIt is called Flo."
    );
    let entries = s.read_entries("identity.md").unwrap();
    assert_eq!(entries.len(), 2);
    assert_eq!(fields(&entries[1]), fields(&entry));
}

#[test]
fn the_index_lists_other_files_too() {
    let mut s = state();
    s.save_entry("Flies to Rome.", Some("Travel.md"), None, 3, "c").unwrap();
    let index = s.read_file("index.md").unwrap();
    assert!(index.contains("\n## travel.md\n- Flies to Rome"));
}

#[test]
fn the_prompt_holds_the_index_alone() {
    let mut s = state();
    s.save_entry("Has a cat. It is called Mo.", None, Some("identity"), 3, "c").unwrap();
    let block = s.context_block();
    assert!(block.contains("- Has a cat — Has a cat.…"));
    assert!(!block.contains("Mo"));
    assert!(s.read_body("identity.md").unwrap().contains("Mo"));
}

#[test]
fn what_was_saved_is_read_again() {
    let mut s = state();
    s.save_entry("Likes \"tea\".\n\n- green\n- C:\\tea", Some("Tea.md"), None, 9, "c 1").unwrap();
    s.save_entry("Likes coffee!", Some("memory/tea.md"), Some(" Drinks "), -1, "c 2").unwrap();
    assert_eq!(
        s.read_body("./tea.MD").unwrap(),
        "Likes \"tea\".\n\n- green\n- C:\\tea\n\n---\n\nLikes coffee!"
    );
    let entries = s.read_entries("tea.md").unwrap();
    assert_eq!(entries.len(), 2);
    assert_eq!((entries[0].importance, entries[0].category.as_str()), (5, "note"));
    assert_eq!((entries[1].importance, entries[1].category.as_str()), (0, "drinks"));
}

#[test]
fn titles_and_summaries_are_one_line() {
    for fact in ["a\nb", "\n\n# x\ny. z", "---", "line one\r\nline two", ".", "é".repeat(300).as_str()] {
        let (title, summary) = (derive_title(fact), derive_summary(fact));
        assert!(!title.contains('\n') && !summary.contains('\n'));
        assert!((1..=61).contains(&title.chars().count()));
        assert!(summary.chars().count() <= 161);
    }
}
