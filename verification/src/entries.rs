//! The entries of a memory file.
//!
//! A file holds entries one after the other. Each is a few fields between two
//! lines `---`, followed by its body:
//!
//! ```text
//! ---
//! title: "Prefers dark mode"
//! category: preference
//! importance: 3
//! created: 2025-09-08
//! source_conversation: "conv_1a2b3c"
//! summary: "Prefers dark mode across most apps."
//! ---
//! User prefers dark mode; dislikes bright themes.
//! ```
use vstd::prelude::*;
use vstd::string::*;

use crate::digits;
use crate::text;

verus! {

/// One entry: its fields and its body.
#[derive(Clone, Debug, PartialEq)]
pub struct MemoryEntry {
    pub title: String,
    pub category: String,
    pub importance: u8,
    pub created: String,
    pub source_conversation: Option<String>,
    pub summary: String,
    pub body: String,
}

/// What an entry holds.
#[verifier::ext_equal]
pub struct EntryView {
    pub title: Seq<char>,
    pub category: Seq<char>,
    pub importance: u8,
    pub created: Seq<char>,
    pub source_conversation: Option<Seq<char>>,
    pub summary: Seq<char>,
    pub body: Seq<char>,
}

impl View for MemoryEntry {
    type V = EntryView;

    open spec fn view(&self) -> EntryView {
        EntryView {
            title: self.title@,
            category: self.category@,
            importance: self.importance,
            created: self.created@,
            source_conversation: text::opt_text(self.source_conversation),
            summary: self.summary@,
            body: self.body@,
        }
    }
}

/// What the entries hold.
pub open spec fn views(v: Seq<MemoryEntry>) -> Seq<EntryView> {
    Seq::new(v.len(), |i: int| v[i]@)
}

/// A copy of an entry.
pub fn copy_entry(e: &MemoryEntry) -> (r: MemoryEntry)
    ensures
        r@ == e@,
{
    MemoryEntry {
        title: e.title.clone(),
        category: e.category.clone(),
        importance: e.importance,
        created: e.created.clone(),
        source_conversation: text::copy_opt(&e.source_conversation),
        summary: e.summary.clone(),
        body: e.body.clone(),
    }
}

// ---------------------------------------------------------------------------
// Quoting
// ---------------------------------------------------------------------------

/// `s` with a backslash before every backslash and every quote.
pub open spec fn escaped(s: Seq<char>) -> Seq<char>
    decreases s.len(),
{
    if s.len() == 0 {
        s
    } else if s[0] == '\\' || s[0] == '"' {
        seq!['\\', s[0]] + escaped(s.drop_first())
    } else {
        seq![s[0]] + escaped(s.drop_first())
    }
}

/// `s` in quotes.
pub open spec fn quoted(s: Seq<char>) -> Seq<char> {
    seq!['"'] + escaped(s) + seq!['"']
}

/// `s` with `c` in place of `a` followed by `b`, from the front on.
pub open spec fn pair_replaced(s: Seq<char>, a: char, b: char, c: char) -> Seq<char>
    decreases s.len(),
{
    if s.len() < 2 {
        s
    } else if s[0] == a && s[1] == b {
        seq![c] + pair_replaced(s.skip(2), a, b, c)
    } else {
        seq![s[0]] + pair_replaced(s.drop_first(), a, b, c)
    }
}

/// Whether `s` stands between two `q`.
pub open spec fn between(s: Seq<char>, q: char) -> bool {
    s.len() >= 2 && s[0] == q && s.last() == q
}

/// `s` without the quotes that it stands in. Within double quotes the escapes are
/// undone.
pub open spec fn unquoted(s: Seq<char>) -> Seq<char> {
    if between(s, '"') {
        pair_replaced(
            pair_replaced(s.subrange(1, s.len() - 1), '\\', '"', '"'),
            '\\',
            '\\',
            '\\',
        )
    } else if between(s, '\'') {
        s.subrange(1, s.len() - 1)
    } else {
        s
    }
}

/// `value` in quotes.
pub fn yaml_quote(value: &str) -> (r: String)
    ensures
        r@ == quoted(value@),
{
    let v = text::chars_of(value);
    let mut out = String::new();
    out.push('"');
    let mut i: usize = 0;
    assert(v@.skip(0) =~= v@);
    assert(out@ =~= seq!['"']);
    assert(seq!['"'] + escaped(v@) =~= out@ + escaped(v@.skip(0)));
    while i < v.len()
        invariant
            i <= v@.len(),
            seq!['"'] + escaped(v@) =~= out@ + escaped(v@.skip(i as int)),
        decreases v@.len() - i,
    {
        let ghost t = v@.skip(i as int);
        assert(t[0] == v@[i as int]);
        assert(t.drop_first() =~= v@.skip(i + 1));
        let c = v[i];
        if c == '\\' || c == '"' {
            out.push('\\');
        }
        out.push(c);
        i += 1;
    }
    assert(escaped(v@.skip(i as int)) =~= Seq::<char>::empty());
    out.push('"');
    assert(out@ =~= quoted(value@));
    out
}

/// `v` with `c` in place of `a` followed by `b`.
fn replace_pair(v: &Vec<char>, a: char, b: char, c: char) -> (r: Vec<char>)
    ensures
        r@ == pair_replaced(v@, a, b, c),
{
    let mut out: Vec<char> = Vec::new();
    let mut i: usize = 0;
    assert(v@.skip(0) =~= v@);
    while i < v.len()
        invariant
            i <= v@.len(),
            pair_replaced(v@, a, b, c) =~= out@ + pair_replaced(v@.skip(i as int), a, b, c),
        decreases v@.len() - i,
    {
        let ghost t = v@.skip(i as int);
        assert(t[0] == v@[i as int]);
        assert(t.drop_first() =~= v@.skip(i + 1));
        if i + 1 < v.len() && v[i] == a && v[i + 1] == b {
            assert(t[1] == v@[i + 1]);
            assert(t.skip(2) =~= v@.skip(i + 2));
            out.push(c);
            i += 2;
        } else {
            proof {
                if t.len() >= 2 {
                    assert(t[1] == v@[i + 1]);
                } else {
                    assert(t =~= seq![t[0]]);
                    assert(v@.skip(i + 1) =~= Seq::<char>::empty());
                }
            }
            out.push(v[i]);
            i += 1;
        }
    }
    assert(v@.skip(i as int) =~= Seq::<char>::empty());
    out
}

/// `value` without the quotes that it stands in.
pub fn unquote(value: &str) -> (r: String)
    ensures
        r@ == unquoted(value@),
{
    let v = text::chars_of(value);
    let n = v.len();
    if n >= 2 && v[0] == '"' && v[n - 1] == '"' {
        let inner = text::chars_of(text::substring(&v, 1, n - 1).as_str());
        let once = replace_pair(&inner, '\\', '"', '"');
        let twice = replace_pair(&once, '\\', '\\', '\\');
        text::string_of(&twice)
    } else if n >= 2 && v[0] == '\'' && v[n - 1] == '\'' {
        text::substring(&v, 1, n - 1)
    } else {
        text::string_of(&v)
    }
}

/// `s` with every backslash twice.
spec fn doubled(s: Seq<char>) -> Seq<char>
    decreases s.len(),
{
    if s.len() == 0 {
        s
    } else if s[0] == '\\' {
        seq!['\\', '\\'] + doubled(s.drop_first())
    } else {
        seq![s[0]] + doubled(s.drop_first())
    }
}

/// Replacing the escaped quotes leaves the backslashes doubled.
proof fn lemma_unescape_quotes(s: Seq<char>)
    ensures
        pair_replaced(escaped(s), '\\', '"', '"') == doubled(s),
        escaped(s).len() > 0 ==> escaped(s)[0] != '"',
    decreases s.len(),
{
    let e = escaped(s);
    if s.len() > 0 {
        let rest = s.drop_first();
        let f = escaped(rest);
        lemma_unescape_quotes(rest);
        if s[0] == '"' {
            assert(e.skip(2) =~= f);
            assert(pair_replaced(e, '\\', '"', '"') =~= doubled(s));
        } else if s[0] == '\\' {
            let g = seq!['\\'] + f;
            assert(e.drop_first() =~= g);
            assert(e[1] == '\\');
            assert(pair_replaced(g, '\\', '"', '"') =~= seq!['\\'] + doubled(rest)) by {
                if f.len() == 0 {
                    assert(f =~= pair_replaced(f, '\\', '"', '"'));
                    assert(g.len() == 1);
                } else {
                    assert(g[1] == f[0]);
                    assert(g.drop_first() =~= f);
                }
            }
            assert(pair_replaced(e, '\\', '"', '"') =~= doubled(s));
        } else {
            assert(e.drop_first() =~= f);
            if f.len() == 0 {
                assert(f =~= pair_replaced(f, '\\', '"', '"'));
                assert(e =~= seq![s[0]]);
            }
            assert(pair_replaced(e, '\\', '"', '"') =~= doubled(s));
        }
    }
}

/// Replacing the doubled backslashes gives the text.
proof fn lemma_unescape_backslashes(s: Seq<char>)
    ensures
        pair_replaced(doubled(s), '\\', '\\', '\\') == s,
    decreases s.len(),
{
    let d = doubled(s);
    if s.len() > 0 {
        let rest = s.drop_first();
        lemma_unescape_backslashes(rest);
        let f = doubled(rest);
        if s[0] == '\\' {
            assert(d.skip(2) =~= f);
        } else {
            assert(d.drop_first() =~= f);
            if f.len() == 0 {
                assert(f =~= pair_replaced(f, '\\', '\\', '\\'));
                assert(d =~= seq![s[0]]);
            }
        }
        assert(seq![s[0]] + rest =~= s);
    }
}

/// A quoted text is given back when it is unquoted.
pub proof fn law_unquote_undoes_quote(s: Seq<char>)
    ensures
        unquoted(quoted(s)) == s,
{
    let q = quoted(s);
    assert(q[0] == '"');
    assert(q.last() == '"');
    assert(q.subrange(1, q.len() - 1) =~= escaped(s));
    lemma_unescape_quotes(s);
    lemma_unescape_backslashes(s);
}

// ---------------------------------------------------------------------------
// Writing
// ---------------------------------------------------------------------------

/// The lines of the fields of an entry, and the two lines around them.
pub open spec fn head_lines(e: EntryView) -> Seq<Seq<char>> {
    let first = seq![
        "---"@,
        "title: "@ + quoted(e.title),
        "category: "@ + e.category,
        "importance: "@ + digits::decimal(e.importance as nat),
        "created: "@ + e.created,
    ];
    let last = seq!["summary: "@ + quoted(e.summary), "---"@];
    match e.source_conversation {
        Some(s) => first + seq!["source_conversation: "@ + quoted(s)] + last,
        None => first + last,
    }
}

/// The lines, each ended by a newline.
pub open spec fn terminated(lines: Seq<Seq<char>>) -> Seq<char>
    decreases lines.len(),
{
    if lines.len() == 0 {
        Seq::empty()
    } else {
        terminated(lines.drop_last()) + lines.last() + seq!['\n']
    }
}

/// The text of an entry.
pub open spec fn entry_text(e: EntryView) -> Seq<char> {
    terminated(head_lines(e)) + text::trimmed(e.body) + seq!['\n']
}

/// The text of entries: one after the other, with an empty line between them.
pub open spec fn serialized(entries: Seq<EntryView>) -> Seq<char> {
    text::joined(Seq::new(entries.len(), |i: int| entry_text(entries[i])), seq!['\n'])
}

/// Appends a line.
fn push_line(out: &mut String, a: &str, b: &str, Ghost(lines): Ghost<Seq<Seq<char>>>)
    requires
        old(out)@ == terminated(lines),
    ensures
        final(out)@ == terminated(lines.push(a@ + b@)),
{
    out.append(a);
    out.append(b);
    out.push('\n');
    proof {
        assert(lines.push(a@ + b@).drop_last() =~= lines);
        assert(out@ =~= terminated(lines) + (a@ + b@) + seq!['\n']);
    }
}

/// The text of an entry.
fn write_entry(e: &MemoryEntry) -> (r: String)
    ensures
        r@ == entry_text(e@),
{
    let mut out = String::new();
    let ghost l0: Seq<Seq<char>> = Seq::empty();
    push_line(&mut out, "---", "", Ghost(l0));
    let ghost l1 = l0.push("---"@ + ""@);
    push_line(&mut out, "title: ", yaml_quote(e.title.as_str()).as_str(), Ghost(l1));
    let ghost l2 = l1.push("title: "@ + quoted(e.title@));
    push_line(&mut out, "category: ", e.category.as_str(), Ghost(l2));
    let ghost l3 = l2.push("category: "@ + e.category@);
    push_line(
        &mut out,
        "importance: ",
        digits::decimal_text(e.importance as u64).as_str(),
        Ghost(l3),
    );
    let ghost l4 = l3.push("importance: "@ + digits::decimal(e.importance as nat));
    push_line(&mut out, "created: ", e.created.as_str(), Ghost(l4));
    let ghost mut l5 = l4.push("created: "@ + e.created@);
    if let Some(source) = &e.source_conversation {
        push_line(
            &mut out,
            "source_conversation: ",
            yaml_quote(source.as_str()).as_str(),
            Ghost(l5),
        );
        proof {
            l5 = l5.push("source_conversation: "@ + quoted(source@));
        }
    }
    push_line(&mut out, "summary: ", yaml_quote(e.summary.as_str()).as_str(), Ghost(l5));
    let ghost l6 = l5.push("summary: "@ + quoted(e.summary@));
    push_line(&mut out, "---", "", Ghost(l6));
    let ghost l7 = l6.push("---"@ + ""@);
    proof {
        reveal_strlit("");
        assert("---"@ + ""@ =~= "---"@);
        assert(l7 =~= head_lines(e@));
    }
    out.append(text::trim(e.body.as_str()).as_str());
    out.push('\n');
    assert(out@ =~= entry_text(e@));
    out
}

/// The text of entries.
pub fn serialize_entries(entries: &Vec<MemoryEntry>) -> (r: String)
    ensures
        r@ == serialized(views(entries@)),
{
    let mut parts: Vec<String> = Vec::new();
    let mut i: usize = 0;
    while i < entries.len()
        invariant
            i <= entries@.len(),
            parts@.len() == i,
            forall|k: int| 0 <= k < i ==> (#[trigger] parts@[k])@ == entry_text(entries@[k]@),
        decreases entries@.len() - i,
    {
        parts.push(write_entry(&entries[i]));
        i += 1;
    }
    proof {
        let e = views(entries@);
        assert(text::texts(parts@) =~= Seq::new(e.len(), |i: int| entry_text(e[i])));
        reveal_strlit("\n");
        assert("\n"@ =~= seq!['\n']);
    }
    text::join(&parts, "\n")
}

// ---------------------------------------------------------------------------
// Reading
// ---------------------------------------------------------------------------

/// Whether a line is `---`.
pub open spec fn is_rule(line: Seq<char>) -> bool {
    text::trimmed(line) == "---"@
}

/// The index of the first line `---`, or the number of lines where there is none.
pub open spec fn rule_index(lines: Seq<Seq<char>>) -> nat
    decreases lines.len(),
{
    if lines.len() == 0 || is_rule(lines[0]) {
        0
    } else {
        1 + rule_index(lines.drop_first())
    }
}

/// The colon as a predicate.
pub open spec fn colon() -> spec_fn(char) -> bool {
    text::among(seq![':'])
}

/// The name and the value of the field that a line is: what stands before and after
/// its first colon.
pub open spec fn field_of(line: Seq<char>) -> Option<(Seq<char>, Seq<char>)> {
    match text::find(line, colon()) {
        Some(i) => Some(
            (
                text::lower(text::trimmed(line.take(i))),
                unquoted(text::trimmed(line.skip(i + 1))),
            ),
        ),
        None => None,
    }
}

/// The value of the field `name`: that of the last line with that name.
pub open spec fn field_value(lines: Seq<Seq<char>>, name: Seq<char>) -> Option<Seq<char>>
    decreases lines.len(),
{
    if lines.len() == 0 {
        None
    } else {
        match field_of(lines.last()) {
            Some((n, v)) => if n == name {
                Some(v)
            } else {
                field_value(lines.drop_last(), name)
            },
            None => field_value(lines.drop_last(), name),
        }
    }
}

/// The value of the field `name`, or nothing.
pub open spec fn field_or_empty(lines: Seq<Seq<char>>, name: Seq<char>) -> Seq<char> {
    match field_value(lines, name) {
        Some(v) => v,
        None => Seq::empty(),
    }
}

/// Whether any line is a field.
pub open spec fn has_fields(lines: Seq<Seq<char>>) -> bool {
    exists|i: int| 0 <= i < lines.len() && field_of(#[trigger] lines[i]) is Some
}

/// The entry with the fields `head` and the body `tail`.
pub open spec fn entry_of(head: Seq<Seq<char>>, tail: Seq<Seq<char>>) -> EntryView {
    EntryView {
        title: field_or_empty(head, "title"@),
        category: field_or_empty(head, "category"@),
        importance: match field_value(head, "importance"@) {
            Some(v) => match digits::parsed_u8(v) {
                Some(n) => n,
                None => 0,
            },
            None => 0,
        },
        created: field_or_empty(head, "created"@),
        source_conversation: field_value(head, "source_conversation"@),
        summary: field_or_empty(head, "summary"@),
        body: text::trimmed(text::joined(tail, seq!['\n'])),
    }
}

/// What `rule_index` returns is an index, or the number of lines.
pub proof fn lemma_rule_index(lines: Seq<Seq<char>>)
    ensures
        rule_index(lines) <= lines.len(),
        rule_index(lines) < lines.len() ==> is_rule(lines[rule_index(lines) as int]),
        forall|i: int| 0 <= i < rule_index(lines) ==> !is_rule(#[trigger] lines[i]),
    decreases lines.len(),
{
    if lines.len() > 0 && !is_rule(lines[0]) {
        let t = lines.drop_first();
        lemma_rule_index(t);
        let n = rule_index(t) as int;
        if n < t.len() {
            assert(t[n] == lines[n + 1]);
        }
        assert forall|i: int| 0 <= i < n + 1 implies !is_rule(#[trigger] lines[i]) by {
            if i > 0 {
                assert(t[i - 1] == lines[i]);
            }
        }
    }
}

/// The entries in the lines of a file. A line `---` opens the fields of an entry, the
/// next one closes them, and the body goes on to the one after that.
pub open spec fn entries_in(lines: Seq<Seq<char>>) -> Seq<EntryView>
    decreases lines.len(),
{
    let i = rule_index(lines) as int;
    if i >= lines.len() {
        Seq::empty()
    } else {
        let head = lines.skip(i + 1);
        let j = rule_index(head) as int;
        if j >= head.len() {
            Seq::empty()
        } else {
            let tail = head.skip(j + 1);
            let k = rule_index(tail) as int;
            if k > tail.len() {
                Seq::empty()
            } else {
                let rest = entries_in(tail.skip(k));
                if has_fields(head.take(j)) {
                    seq![entry_of(head.take(j), tail.take(k))] + rest
                } else {
                    rest
                }
            }
        }
    }
}

/// The entries in the text of a file.
pub open spec fn parsed(content: Seq<char>) -> Seq<EntryView> {
    entries_in(text::line_seq(content))
}

/// Whether a line is `---`.
fn rule(line: &str) -> (r: bool)
    ensures
        r == is_rule(line@),
{
    text::same(text::trim(line).as_str(), "---")
}

/// The index, from `from` on, of the first line `---`, or the number of lines.
fn next_rule(lines: &Vec<String>, from: usize) -> (r: usize)
    requires
        from <= lines@.len(),
    ensures
        from <= r <= lines@.len(),
        r - from == rule_index(text::texts(lines@).skip(from as int)),
{
    let ghost t = text::texts(lines@);
    let mut i: usize = from;
    while i < lines.len() && !rule(lines[i].as_str())
        invariant
            from <= i <= lines@.len(),
            t == text::texts(lines@),
            rule_index(t.skip(from as int)) == i - from + rule_index(t.skip(i as int)),
        decreases lines@.len() - i,
    {
        assert(t.skip(i as int)[0] == lines@[i as int]@);
        assert(t.skip(i as int).drop_first() =~= t.skip(i + 1));
        i += 1;
    }
    proof {
        if i < lines@.len() {
            assert(t.skip(i as int)[0] == lines@[i as int]@);
        }
    }
    i
}

/// The name and the value of the field that a line is.
fn read_field(line: &str) -> (r: Option<(String, String)>)
    ensures
        match r {
            Some((n, v)) => field_of(line@) == Some((n@, v@)),
            None => field_of(line@) is None,
        },
{
    let v = text::chars_of(line);
    let set: Vec<char> = vec![':'];
    assert(set@ =~= seq![':']);
    match text::find_among(&v, &set) {
        Some(i) => {
            let name = text::substring(&v, 0, i);
            let value = text::substring(&v, i + 1, v.len());
            assert(name@ =~= line@.take(i as int));
            assert(value@ =~= line@.skip(i + 1));
            Some(
                (
                    text::to_lower(text::trim(name.as_str()).as_str()),
                    unquote(text::trim(value.as_str()).as_str()),
                ),
            )
        },
        None => None,
    }
}

/// The value of the field `name` among the fields `head`.
fn value_of(head: &Vec<(String, String)>, name: &str, Ghost(lines): Ghost<Seq<Seq<char>>>) -> (r:
    Option<String>)
    requires
        fields_are(head@, lines),
    ensures
        text::opt_text(r) == field_value(lines, name@),
{
    proof {
        lemma_fields_value(head@, lines, name@);
    }
    let mut i: usize = head.len();
    assert(head@.take(head@.len() as int) =~= head@);
    while i > 0
        invariant
            i <= head@.len(),
            last_value(head@, name@) == last_value(head@.take(i as int), name@),
            last_value(head@, name@) == field_value(lines, name@),
        decreases i,
    {
        let ghost t = head@.take(i as int);
        assert(t.last() == head@[i - 1]);
        assert(t.drop_last() =~= head@.take(i - 1));
        if text::same(head[i - 1].0.as_str(), name) {
            return Some(head[i - 1].1.clone());
        }
        i -= 1;
    }
    None
}

/// The value of the last pair with the name `name`.
spec fn last_value(head: Seq<(String, String)>, name: Seq<char>) -> Option<Seq<char>>
    decreases head.len(),
{
    if head.len() == 0 {
        None
    } else if head.last().0@ == name {
        Some(head.last().1@)
    } else {
        last_value(head.drop_last(), name)
    }
}

/// Whether `head` holds the fields among `lines`, in order.
spec fn fields_are(head: Seq<(String, String)>, lines: Seq<Seq<char>>) -> bool
    decreases lines.len(),
{
    if lines.len() == 0 {
        head.len() == 0
    } else {
        match field_of(lines.last()) {
            Some((n, v)) => head.len() > 0 && head.last().0@ == n && head.last().1@ == v
                && fields_are(head.drop_last(), lines.drop_last()),
            None => fields_are(head, lines.drop_last()),
        }
    }
}

/// The last field with a name is the last line with it.
proof fn lemma_fields_value(head: Seq<(String, String)>, lines: Seq<Seq<char>>, name: Seq<char>)
    requires
        fields_are(head, lines),
    ensures
        last_value(head, name) == field_value(lines, name),
    decreases lines.len(),
{
    if lines.len() > 0 {
        match field_of(lines.last()) {
            Some((n, v)) => {
                lemma_fields_value(head.drop_last(), lines.drop_last(), name);
            },
            None => {
                lemma_fields_value(head, lines.drop_last(), name);
            },
        }
    }
}

/// There are fields where any line is one.
proof fn lemma_fields_exist(head: Seq<(String, String)>, lines: Seq<Seq<char>>)
    requires
        fields_are(head, lines),
    ensures
        has_fields(lines) == (head.len() > 0),
    decreases lines.len(),
{
    if lines.len() > 0 {
        let front = lines.drop_last();
        match field_of(lines.last()) {
            Some((n, v)) => {
                assert(field_of(lines[lines.len() - 1]) is Some);
            },
            None => {
                lemma_fields_exist(head, front);
                if has_fields(front) {
                    let i = choose|i: int|
                        0 <= i < front.len() && field_of(#[trigger] front[i]) is Some;
                    assert(field_of(lines[i]) is Some);
                }
                if has_fields(lines) {
                    let i = choose|i: int|
                        0 <= i < lines.len() && field_of(#[trigger] lines[i]) is Some;
                    assert(field_of(front[i]) is Some);
                }
            },
        }
    }
}

/// The fields among the lines `from..to`.
fn read_fields(lines: &Vec<String>, from: usize, to: usize) -> (r: Vec<(String, String)>)
    requires
        from <= to <= lines@.len(),
    ensures
        fields_are(r@, text::texts(lines@).subrange(from as int, to as int)),
{
    let ghost t = text::texts(lines@);
    let mut out: Vec<(String, String)> = Vec::new();
    let mut i: usize = from;
    while i < to
        invariant
            from <= i <= to <= lines@.len(),
            t == text::texts(lines@),
            fields_are(out@, t.subrange(from as int, i as int)),
        decreases to - i,
    {
        let ghost u = t.subrange(from as int, i + 1);
        assert(u.last() == lines@[i as int]@);
        assert(u.drop_last() =~= t.subrange(from as int, i as int));
        match read_field(lines[i].as_str()) {
            Some(f) => {
                let ghost before = out@;
                out.push(f);
                assert(out@.drop_last() =~= before);
            },
            None => {},
        }
        i += 1;
    }
    out
}

/// A string, or an empty one.
fn or_empty(v: Option<String>) -> (r: String)
    ensures
        r@ == match text::opt_text(v) {
            Some(s) => s,
            None => Seq::empty(),
        },
{
    match v {
        Some(s) => s,
        None => String::new(),
    }
}

/// The entry with the given fields, whose body is the lines `from..to`.
fn read_entry(
    head: &Vec<(String, String)>,
    lines: &Vec<String>,
    from: usize,
    to: usize,
    Ghost(head_lines): Ghost<Seq<Seq<char>>>,
) -> (r: MemoryEntry)
    requires
        fields_are(head@, head_lines),
        from <= to <= lines@.len(),
    ensures
        r@ == entry_of(head_lines, text::texts(lines@).subrange(from as int, to as int)),
{
    let mut body: Vec<String> = Vec::new();
    let mut i: usize = from;
    while i < to
        invariant
            from <= i <= to <= lines@.len(),
            body@.len() == i - from,
            forall|k: int| 0 <= k < i - from ==> (#[trigger] body@[k])@ == lines@[from + k]@,
        decreases to - i,
    {
        body.push(lines[i].clone());
        i += 1;
    }
    proof {
        assert(text::texts(body@) =~= text::texts(lines@).subrange(from as int, to as int));
        reveal_strlit("\n");
        assert("\n"@ =~= seq!['\n']);
    }
    let importance: u8 = match value_of(head, "importance", Ghost(head_lines)) {
        Some(v) => match digits::parse_u8(v.as_str()) {
            Some(n) => n,
            None => 0,
        },
        None => 0,
    };
    MemoryEntry {
        title: or_empty(value_of(head, "title", Ghost(head_lines))),
        category: or_empty(value_of(head, "category", Ghost(head_lines))),
        importance,
        created: or_empty(value_of(head, "created", Ghost(head_lines))),
        source_conversation: value_of(head, "source_conversation", Ghost(head_lines)),
        summary: or_empty(value_of(head, "summary", Ghost(head_lines))),
        body: text::trim(text::join(&body, "\n").as_str()),
    }
}

/// The entries from line `i` on, where the next lines `---` are `a`, `b` and `c`.
proof fn lemma_entries_from(t: Seq<Seq<char>>, i: int, a: int, b: int, c: int)
    requires
        0 <= i <= a < t.len(),
        a + 1 <= b <= t.len(),
        a - i == rule_index(t.skip(i)),
        b - (a + 1) == rule_index(t.skip(a + 1)),
        b < t.len() ==> b + 1 <= c <= t.len() && c - (b + 1) == rule_index(t.skip(b + 1)),
    ensures
        b == t.len() ==> entries_in(t.skip(i)) == Seq::<EntryView>::empty(),
        b < t.len() ==> entries_in(t.skip(i)) == (if has_fields(t.subrange(a + 1, b)) {
            seq![entry_of(t.subrange(a + 1, b), t.subrange(b + 1, c))] + entries_in(t.skip(c))
        } else {
            entries_in(t.skip(c))
        }),
{
    let s = t.skip(i);
    let head = s.skip(a - i + 1);
    assert(head =~= t.skip(a + 1));
    if b < t.len() {
        let tail = head.skip(b - a);
        assert(tail =~= t.skip(b + 1));
        assert(head.take(b - a - 1) =~= t.subrange(a + 1, b));
        assert(tail.take(c - b - 1) =~= t.subrange(b + 1, c));
        assert(tail.skip(c - b - 1) =~= t.skip(c));
    }
}

/// The entries in the text of a file.
pub fn parse_entries(content: &str) -> (r: Vec<MemoryEntry>)
    ensures
        views(r@) == parsed(content@),
{
    let lines = text::lines(content);
    let ghost t = text::texts(lines@);
    let mut out: Vec<MemoryEntry> = Vec::new();
    let mut i: usize = 0;
    assert(t.skip(0) =~= t);
    assert(views(out@) + entries_in(t) =~= entries_in(t));
    loop
        invariant
            i <= lines@.len(),
            t == text::texts(lines@),
            entries_in(t) == views(out@) + entries_in(t.skip(i as int)),
        ensures
            views(out@) == entries_in(t),
        decreases lines@.len() - i,
    {
        let a = next_rule(&lines, i);
        if a >= lines.len() {
            assert(entries_in(t.skip(i as int)) == Seq::<EntryView>::empty());
            assert(views(out@) =~= entries_in(t));
            break;
        }
        let b = next_rule(&lines, a + 1);
        if b >= lines.len() {
            proof {
                lemma_entries_from(t, i as int, a as int, b as int, b as int);
            }
            assert(views(out@) =~= entries_in(t));
            break;
        }
        let c = next_rule(&lines, b + 1);
        let fields = read_fields(&lines, a + 1, b);
        let ghost inner = t.subrange(a + 1, b as int);
        proof {
            lemma_entries_from(t, i as int, a as int, b as int, c as int);
            lemma_fields_exist(fields@, inner);
        }
        if fields.len() > 0 {
            let ghost before = views(out@);
            let e = read_entry(&fields, &lines, b + 1, c, Ghost(inner));
            out.push(e);
            assert(views(out@) =~= before + seq![e@]);
            assert(views(out@) + entries_in(t.skip(c as int)) =~= before + (seq![e@]
                + entries_in(t.skip(c as int))));
        }
        i = c;
    }
    out
}

// ---------------------------------------------------------------------------
// Reading what was written
// ---------------------------------------------------------------------------

/// Whether a field holds its value as it stands, without quotes: it is one line, has
/// no white space around it and does not look quoted.
pub open spec fn plain(value: Seq<char>) -> bool {
    &&& !value.contains('\n')
    &&& text::trimmed(value) == value
    &&& unquoted(value) == value
}

/// Whether the file format holds a body as it stands: it has no white space around it,
/// no carriage return before a newline, and no line `---`.
pub open spec fn plain_body(body: Seq<char>) -> bool {
    let lines = text::split(body, text::newline());
    &&& text::trimmed(body) == body
    &&& forall|i: int|
        0 <= i < lines.len() ==> text::without_cr(#[trigger] lines[i]) == lines[i] && !is_rule(
            lines[i],
        )
}

/// Whether the file format holds an entry as it stands.
pub open spec fn storable(e: EntryView) -> bool {
    &&& !e.title.contains('\n')
    &&& plain(e.category)
    &&& plain(e.created)
    &&& (e.source_conversation matches Some(s) ==> !s.contains('\n'))
    &&& !e.summary.contains('\n')
    &&& plain_body(e.body)
}

/// Whether no line is `---`.
pub open spec fn no_rules(lines: Seq<Seq<char>>) -> bool {
    forall|i: int| 0 <= i < lines.len() ==> !is_rule(#[trigger] lines[i])
}

/// The lines that are read between the two lines `---` of an entry that was written.
pub open spec fn field_lines(e: EntryView) -> Seq<Seq<char>> {
    let h = head_lines(e);
    text::line_seq(terminated(h.subrange(1, h.len() - 1)))
}

/// The lines that are read of the body of an entry that was written.
pub open spec fn body_lines(e: EntryView) -> Seq<Seq<char>> {
    text::line_seq(text::trimmed(e.body).push('\n'))
}

/// Whether an entry that is written is told from those around it: its title is one line,
/// and neither its fields nor its body have a line `---`.
pub open spec fn separable(e: EntryView) -> bool {
    &&& !e.title.contains('\n')
    &&& no_rules(field_lines(e))
    &&& no_rules(body_lines(e))
}

/// What is read of an entry that was written.
pub open spec fn reread(e: EntryView) -> EntryView {
    entry_of(field_lines(e), body_lines(e))
}

/// What is read of entries that were written.
pub open spec fn all_reread(entries: Seq<EntryView>) -> Seq<EntryView> {
    Seq::new(entries.len(), |i: int| reread(entries[i]))
}

/// Whether every field of an entry is one line, and its body has no line `---`. So are the
/// entries that come from a file.
pub open spec fn one_line_fields(e: EntryView) -> bool {
    &&& !e.title.contains('\n')
    &&& !e.category.contains('\n')
    &&& !e.created.contains('\n')
    &&& (e.source_conversation matches Some(s) ==> !s.contains('\n'))
    &&& !e.summary.contains('\n')
    &&& no_rules(body_lines(e))
}

/// The index of the first line `---`.
proof fn lemma_rule_index_is(lines: Seq<Seq<char>>, i: int)
    requires
        0 <= i <= lines.len(),
        i < lines.len() ==> is_rule(lines[i]),
        forall|j: int| 0 <= j < i ==> !is_rule(#[trigger] lines[j]),
    ensures
        rule_index(lines) == i,
{
    lemma_rule_index(lines);
    let n = rule_index(lines) as int;
    if n < i {
        assert(!is_rule(lines[n]));
    }
}

/// `---` is a rule.
proof fn lemma_rule()
    ensures
        is_rule("---"@),
        !"---"@.contains('\n'),
        "---"@.len() == 3,
        "---"@.last() != '\r',
{
    reveal_strlit("---");
    text::lemma_trimmed_edges("---"@);
}

/// A quoted text is one line where the text is, and has its quotes at its ends.
proof fn lemma_quoted(s: Seq<char>)
    requires
        !s.contains('\n'),
    ensures
        !quoted(s).contains('\n'),
        text::trimmed(quoted(s)) == quoted(s),
        unquoted(quoted(s)) == s,
{
    let q = quoted(s);
    law_unquote_undoes_quote(s);
    assert(q[0] == '"' && q.last() == '"');
    text::lemma_trimmed_edges(q);
    lemma_escaped_lines(s);
    assert forall|i: int| 0 <= i < q.len() implies q[i] != '\n' by {
        if 0 < i < q.len() - 1 {
            assert(q[i] == escaped(s)[i - 1]);
            assert(escaped(s).contains(escaped(s)[i - 1]));
        }
    }
}

/// Escaping adds no newline.
proof fn lemma_escaped_lines(s: Seq<char>)
    requires
        !s.contains('\n'),
    ensures
        !escaped(s).contains('\n'),
    decreases s.len(),
{
    if s.len() > 0 {
        let rest = s.drop_first();
        assert(s.contains(s[0]));
        assert forall|i: int| 0 <= i < rest.len() implies rest[i] != '\n' by {
            assert(s.contains(s[i + 1]));
        }
        lemma_escaped_lines(rest);
        let head = if s[0] == '\\' || s[0] == '"' {
            seq!['\\', s[0]]
        } else {
            seq![s[0]]
        };
        let f = escaped(rest);
        assert(escaped(s) == head + f);
        assert forall|i: int| 0 <= i < (head + f).len() implies (head + f)[i] != '\n' by {
            if i >= head.len() {
                assert(f.contains(f[i - head.len()]));
            }
        }
    }
}

/// Whether `name` is made of small letters and underscores.
spec fn is_name(name: Seq<char>) -> bool {
    &&& name.len() > 0
    &&& forall|i: int|
        0 <= i < name.len() ==> ('a' <= #[trigger] name[i] && name[i] <= 'z') || name[i] == '_'
}

/// A line made of a name and a value is that field, without the white space around the
/// value and the quotes that it stands in.
proof fn lemma_field(prefix: Seq<char>, name: Seq<char>, value: Seq<char>)
    requires
        prefix == name + seq![':', ' '],
        is_name(name),
        !value.contains('\n'),
    ensures
        field_of(text::without_cr(prefix + value)) == Some((name, unquoted(text::trimmed(value)))),
        !is_rule(text::without_cr(prefix + value)),
        !(prefix + value).contains('\n'),
{
    let line = prefix + value;
    let n = name.len() as int;
    let short = text::without_cr(value);
    let l = text::without_cr(line);
    if value.len() > 0 {
        assert(line.last() == value.last());
    } else {
        assert(line.last() == ' ');
    }
    assert(l =~= prefix + short);
    assert(l[n] == ':');
    assert forall|j: int| 0 <= j < n implies !colon()(#[trigger] l[j]) by {
        assert(l[j] == name[j]);
    }
    assert(seq![':'][0] == ':');
    assert(colon()(l[n]));
    text::lemma_find_is(l, colon(), n);
    assert(l.take(n) =~= name);
    assert(!text::is_space(name[0]) && !text::is_space(name.last()));
    text::lemma_trimmed_edges(name);
    assert(text::lower(name) =~= name);
    assert(l.skip(n + 1) =~= seq![' '] + short);
    text::lemma_trimmed_after_blank(short);
    text::lemma_trimmed_without_cr(value);
    assert forall|i: int| 0 <= i < line.len() implies line[i] != '\n' by {
        if i >= n + 2 {
            assert(line[i] == value[i - n - 2]);
            assert(value.contains(value[i - n - 2]));
        } else if i < n {
            assert(line[i] == name[i]);
        }
    }
    lemma_not_rule(l, name);
}

/// A line that begins with a name is no rule.
proof fn lemma_not_rule(line: Seq<char>, name: Seq<char>)
    requires
        is_name(name),
        name.len() <= line.len(),
        line.take(name.len() as int) == name,
    ensures
        !is_rule(line),
{
    assert(line[0] == line.take(name.len() as int)[0]);
    assert(!text::is_space(line[0]));
    text::lemma_leading_none(line, text::spaces());
    text::lemma_drop_trailing(line, text::spaces());
    reveal_strlit("---");
    if text::trimmed(line) == "---"@ {
        assert(text::trimmed(line)[0] == line[0]);
    }
}

/// A number in decimal is a plain value.
proof fn lemma_number(n: u8)
    ensures
        plain(digits::decimal(n as nat)),
        digits::parsed_u8(digits::decimal(n as nat)) == Some(n),
{
    let d = digits::decimal(n as nat);
    digits::lemma_u8_read_back(n);
    digits::lemma_decimal(n as nat);
    assert(digits::is_digit(d[0]) && digits::is_digit(d[d.len() - 1]));
    text::lemma_trimmed_edges(d);
    assert forall|i: int| 0 <= i < d.len() implies d[i] != '\n' by {
        assert(digits::is_digit(d[i]));
    }
}

/// The values of the first four fields.
proof fn lemma_four(
    f: Seq<Seq<char>>,
    l1: Seq<char>,
    l2: Seq<char>,
    l3: Seq<char>,
    l4: Seq<char>,
    v1: Seq<char>,
    v2: Seq<char>,
    v3: Seq<char>,
    v4: Seq<char>,
)
    requires
        f == seq![l1, l2, l3, l4],
        field_of(l1) == Some(("title"@, v1)),
        field_of(l2) == Some(("category"@, v2)),
        field_of(l3) == Some(("importance"@, v3)),
        field_of(l4) == Some(("created"@, v4)),
    ensures
        field_value(f, "title"@) == Some(v1),
        field_value(f, "category"@) == Some(v2),
        field_value(f, "importance"@) == Some(v3),
        field_value(f, "created"@) == Some(v4),
        field_value(f, "source_conversation"@) is None,
{
    reveal_strlit("title");
    reveal_strlit("category");
    reveal_strlit("importance");
    reveal_strlit("created");
    reveal_strlit("source_conversation");
    assert("title"@.len() == 5 && "category"@.len() == 8 && "importance"@.len() == 10
        && "created"@.len() == 7 && "source_conversation"@.len() == 19);
    let f0 = Seq::<Seq<char>>::empty();
    let f1 = f0.push(l1);
    let f2 = f1.push(l2);
    let f3 = f2.push(l3);
    assert(f =~= f3.push(l4));
    let names = seq!["title"@, "category"@, "importance"@, "created"@, "source_conversation"@];
    assert forall|i: int| 0 <= i < names.len() implies ({
        let name = #[trigger] names[i];
        field_value(f, name) == (if name == "created"@ {
            Some(v4)
        } else if name == "importance"@ {
            Some(v3)
        } else if name == "category"@ {
            Some(v2)
        } else if name == "title"@ {
            Some(v1)
        } else {
            None
        })
    }) by {
        lemma_field_push(f0, l1, names[i]);
        lemma_field_push(f1, l2, names[i]);
        lemma_field_push(f2, l3, names[i]);
        lemma_field_push(f3, l4, names[i]);
    }
    assert(names[0] == "title"@ && names[1] == "category"@ && names[2] == "importance"@ && names[3]
        == "created"@ && names[4] == "source_conversation"@);
}

/// The value of a field among lines and one more.
proof fn lemma_field_push(lines: Seq<Seq<char>>, line: Seq<char>, name: Seq<char>)
    ensures
        field_value(lines.push(line), name) == match field_of(line) {
            Some((n, v)) => if n == name {
                Some(v)
            } else {
                field_value(lines, name)
            },
            None => field_value(lines, name),
        },
{
    assert(lines.push(line).drop_last() =~= lines);
}

/// Lines without their carriage returns.
spec fn clean(lines: Seq<Seq<char>>) -> Seq<Seq<char>> {
    Seq::new(lines.len(), |i: int| text::without_cr(lines[i]))
}

/// Lines that are each ended by a newline are the lines of the text.
proof fn lemma_terminated(lines: Seq<Seq<char>>)
    requires
        forall|i: int| 0 <= i < lines.len() ==> !(#[trigger] lines[i]).contains('\n'),
    ensures
        text::line_seq(terminated(lines)) == clean(lines),
    decreases lines.len(),
{
    if lines.len() == 0 {
        text::lemma_lines_empty();
        assert(clean(lines) =~= Seq::<Seq<char>>::empty());
    } else {
        let front = lines.drop_last();
        let last = lines.last();
        assert(last == lines[lines.len() - 1]);
        assert forall|i: int| 0 <= i < front.len() implies !(#[trigger] front[i]).contains(
            '\n',
        ) by {
            assert(front[i] == lines[i]);
        }
        lemma_terminated(front);
        text::lemma_lines_empty();
        let nothing = Seq::<char>::empty();
        let tail = last.push('\n') + nothing;
        assert(tail =~= last + seq!['\n']);
        assert(terminated(lines) =~= terminated(front) + tail);
        lemma_terminated_lines(front, tail);
        text::lemma_lines_concat(last, nothing);
        assert forall|i: int| 0 <= i < last.len() implies !text::newline()(#[trigger] last[i]) by {
            if text::newline()(last[i]) {
                assert(last.contains('\n'));
            }
        }
        text::lemma_split_whole(last, text::newline());
        assert(clean(lines) =~= clean(front) + text::line_seq(tail));
    }
}

/// The lines of a text that is made of ended lines, and of what follows it.
proof fn lemma_terminated_lines(lines: Seq<Seq<char>>, rest: Seq<char>)
    ensures
        text::line_seq(terminated(lines) + rest) == text::line_seq(terminated(lines))
            + text::line_seq(rest),
{
    text::lemma_lines_empty();
    if lines.len() == 0 {
        assert(terminated(lines) + rest =~= rest);
        assert(text::line_seq(terminated(lines)) + text::line_seq(rest) =~= text::line_seq(rest));
    } else {
        lemma_ended(terminated(lines.drop_last()) + lines.last(), rest);
        assert(terminated(lines) =~= (terminated(lines.drop_last()) + lines.last()).push('\n'));
    }
}

/// The lines of a text that is ended by a newline, and of what follows it.
proof fn lemma_ended(s: Seq<char>, rest: Seq<char>)
    ensures
        text::line_seq(s.push('\n') + rest) == text::line_seq(s.push('\n')) + text::line_seq(rest),
        text::line_seq(s.push('\n')) == clean(text::split(s, text::newline())),
{
    let nothing = Seq::<char>::empty();
    let c = clean(text::split(s, text::newline()));
    text::lemma_lines_empty();
    text::lemma_lines_concat(s, rest);
    text::lemma_lines_concat(s, nothing);
    assert(s.push('\n') + nothing =~= s.push('\n'));
    assert(c + Seq::<Seq<char>>::empty() =~= c);
}

/// The lines of an entry that was written.
spec fn entry_lines(e: EntryView) -> Seq<Seq<char>> {
    seq!["---"@] + field_lines(e) + seq!["---"@] + body_lines(e)
}

/// Ended lines, and others after them.
proof fn lemma_terminated_concat(a: Seq<Seq<char>>, b: Seq<Seq<char>>)
    ensures
        terminated(a + b) == terminated(a) + terminated(b),
    decreases b.len(),
{
    if b.len() == 0 {
        assert(a + b =~= a);
        assert(terminated(a) + terminated(b) =~= terminated(a));
    } else {
        lemma_terminated_concat(a, b.drop_last());
        assert((a + b).drop_last() =~= a + b.drop_last());
        assert((a + b).last() == b.last());
        assert(terminated(a + b) =~= terminated(a) + terminated(b));
    }
}

/// The lines of the text of an entry, and of what follows it.
proof fn lemma_entry_lines(e: EntryView, rest: Seq<char>)
    ensures
        text::line_seq(entry_text(e) + rest) == entry_lines(e) + text::line_seq(rest),
{
    let h = head_lines(e);
    let n = h.len() as int;
    let fields = h.subrange(1, n - 1);
    let one = seq!["---"@];
    let body = text::trimmed(e.body);
    lemma_rule();
    assert(h[0] == "---"@ && h[n - 1] == "---"@);
    assert(h =~= one + fields + one);
    lemma_terminated_concat(one + fields, one);
    lemma_terminated_concat(one, fields);
    lemma_terminated(one);
    assert(clean(one) =~= one);
    let after_body = body.push('\n') + rest;
    let after_second = terminated(one) + after_body;
    let after_fields = terminated(fields) + after_second;
    assert(entry_text(e) + rest =~= terminated(one) + after_fields);
    lemma_terminated_lines(one, after_fields);
    lemma_terminated_lines(fields, after_second);
    lemma_terminated_lines(one, after_body);
    lemma_ended(body, rest);
    assert(entry_lines(e) + text::line_seq(rest) =~= one + (field_lines(e) + (one + (body_lines(e)
        + text::line_seq(rest)))));
}

/// The lines of entries.
spec fn file_lines(entries: Seq<EntryView>) -> Seq<Seq<char>>
    decreases entries.len(),
{
    if entries.len() == 0 {
        Seq::empty()
    } else if entries.len() == 1 {
        entry_lines(entries[0])
    } else {
        entry_lines(entries[0]) + (seq![Seq::<char>::empty()] + file_lines(entries.drop_first()))
    }
}

/// The lines of the text of entries.
proof fn lemma_file_lines(entries: Seq<EntryView>)
    ensures
        text::line_seq(serialized(entries)) == file_lines(entries),
    decreases entries.len(),
{
    let parts = Seq::new(entries.len(), |i: int| entry_text(entries[i]));
    let sep = seq!['\n'];
    text::lemma_lines_empty();
    if entries.len() == 1 {
        assert(parts.drop_last() =~= Seq::<Seq<char>>::empty());
        assert(serialized(entries) =~= entry_text(entries[0]) + Seq::<char>::empty());
        lemma_entry_lines(entries[0], Seq::<char>::empty());
        assert(entry_lines(entries[0]) + Seq::<Seq<char>>::empty() =~= entry_lines(entries[0]));
    } else if entries.len() > 1 {
        let rest = entries.drop_first();
        let others = Seq::new(rest.len(), |i: int| entry_text(rest[i]));
        assert(parts.drop_first() =~= others);
        text::lemma_joined_first(parts, sep);
        lemma_file_lines(rest);
        let after = Seq::<char>::empty().push('\n') + serialized(rest);
        assert(serialized(entries) =~= entry_text(entries[0]) + after);
        lemma_entry_lines(entries[0], after);
        text::lemma_lines_first(Seq::<char>::empty(), serialized(rest));
    }
}

/// A block of fields, a body and what follows it give one entry and the rest.
proof fn lemma_block(
    h: Seq<Seq<char>>,
    body: Seq<Seq<char>>,
    rest: Seq<Seq<char>>,
)
    requires
        h.len() >= 3,
        is_rule(h[0]),
        is_rule(h.last()),
        forall|i: int| 0 < i < h.len() - 1 ==> !is_rule(#[trigger] h[i]),
        forall|i: int| 0 <= i < body.len() ==> !is_rule(#[trigger] body[i]),
        rest.len() > 0 ==> is_rule(rest[0]),
        has_fields(h.subrange(1, h.len() - 1)),
    ensures
        entries_in(h + body + rest) == seq![entry_of(h.subrange(1, h.len() - 1), body)]
            + entries_in(rest),
{
    let t = h + body + rest;
    let b = h.len() - 1;
    let c = (h.len() + body.len()) as int;
    assert(t.skip(0) =~= t);
    lemma_rule_index_is(t.skip(0), 0);
    let inner = t.skip(1);
    assert forall|j: int| 0 <= j < b - 1 implies !is_rule(#[trigger] inner[j]) by {
        assert(inner[j] == h[j + 1]);
    }
    assert(inner[b - 1] == h[b]);
    lemma_rule_index_is(inner, b - 1);
    let tail = t.skip(b + 1);
    assert(tail =~= body + rest);
    assert forall|j: int| 0 <= j < body.len() implies !is_rule(#[trigger] tail[j]) by {
        assert(tail[j] == body[j]);
    }
    if rest.len() > 0 {
        assert(tail[body.len() as int] == rest[0]);
    }
    lemma_rule_index_is(tail, body.len() as int);
    lemma_entries_from(t, 0, 0, b, c);
    assert(t.subrange(1, b) =~= h.subrange(1, b));
    assert(t.subrange(b + 1, c) =~= body);
    assert(t.skip(c) =~= rest);
}

/// An empty line is no rule.
proof fn lemma_empty_line()
    ensures
        !is_rule(Seq::<char>::empty()),
{
    reveal_strlit("---");
    text::lemma_trimmed_edges(Seq::<char>::empty());
}

/// The title is a field of an entry that was written.
proof fn lemma_title_line(e: EntryView)
    requires
        !e.title.contains('\n'),
    ensures
        has_fields(field_lines(e)),
{
    let h = head_lines(e);
    let fields = h.subrange(1, h.len() - 1);
    let line = "title: "@ + quoted(e.title);
    reveal_strlit("title");
    reveal_strlit("title: ");
    assert("title: "@ =~= "title"@ + seq![':', ' ']);
    lemma_quoted(e.title);
    lemma_field("title: "@, "title"@, quoted(e.title));
    let one = seq![line];
    let others = fields.skip(1);
    assert(fields =~= one + others);
    lemma_terminated_concat(one, others);
    lemma_terminated_lines(one, terminated(others));
    lemma_terminated(one);
    assert(field_lines(e)[0] == text::without_cr(line));
}

/// An entry is read from its lines, and what follows it after that.
proof fn lemma_first_entry(e: EntryView, gap: Seq<Seq<char>>, rest: Seq<Seq<char>>)
    requires
        separable(e),
        gap == Seq::<Seq<char>>::empty() || gap == seq![Seq::<char>::empty()],
        rest.len() > 0 ==> is_rule(rest[0]),
    ensures
        entries_in(entry_lines(e) + (gap + rest)) == seq![reread(e)] + entries_in(rest),
{
    lemma_rule();
    lemma_empty_line();
    lemma_title_line(e);
    let fields = field_lines(e);
    let h = seq!["---"@] + fields + seq!["---"@];
    let lines = body_lines(e);
    let body = lines + gap;
    assert(h.subrange(1, h.len() - 1) =~= fields);
    assert forall|i: int| 0 < i < h.len() - 1 implies !is_rule(#[trigger] h[i]) by {
        assert(h[i] == fields[i - 1]);
    }
    assert forall|i: int| 0 <= i < body.len() implies !is_rule(#[trigger] body[i]) by {
        if i < lines.len() {
            assert(body[i] == lines[i]);
        }
    }
    assert(has_fields(fields));
    assert(fields.len() > 0);
    assert(entry_lines(e) + (gap + rest) =~= h + body + rest);
    lemma_block(h, body, rest);
    if gap.len() == 0 {
        assert(body =~= lines);
    } else {
        let s = text::joined(lines, seq!['\n']);
        assert(body =~= lines.push(Seq::<char>::empty()));
        lemma_ended(text::trimmed(e.body), Seq::<char>::empty());
        text::lemma_split_nonempty(text::trimmed(e.body), text::newline());
        text::lemma_joined_push(lines, Seq::<char>::empty(), seq!['\n']);
        assert(s + seq!['\n'] + Seq::<char>::empty() =~= s.push('\n'));
        text::lemma_trimmed_push_space(s, '\n');
    }
    assert(entry_of(fields, body) == reread(e));
}

/// The entries in the lines of entries.
proof fn lemma_file_entries(entries: Seq<EntryView>)
    requires
        forall|i: int| 0 <= i < entries.len() ==> separable(#[trigger] entries[i]),
    ensures
        entries_in(file_lines(entries)) == all_reread(entries),
        entries.len() > 0 ==> file_lines(entries).len() > 0 && is_rule(file_lines(entries)[0]),
    decreases entries.len(),
{
    let nothing = Seq::<Seq<char>>::empty();
    assert(entries_in(nothing) =~= Seq::<EntryView>::empty());
    if entries.len() > 0 {
        let e = entries[0];
        assert(separable(e));
        lemma_rule();
        assert(entry_lines(e)[0] == "---"@);
        if entries.len() == 1 {
            assert(entry_lines(e) + (nothing + nothing) =~= entry_lines(e));
            lemma_first_entry(e, nothing, nothing);
            assert(seq![reread(e)] + Seq::<EntryView>::empty() =~= all_reread(entries));
        } else {
            let rest = entries.drop_first();
            assert forall|i: int| 0 <= i < rest.len() implies separable(#[trigger] rest[i]) by {
                assert(rest[i] == entries[i + 1]);
            }
            lemma_file_entries(rest);
            lemma_first_entry(e, seq![Seq::<char>::empty()], file_lines(rest));
            assert(seq![reread(e)] + all_reread(rest) =~= all_reread(entries));
        }
    }
}

/// Entries that were written to a file are read from it one by one.
pub proof fn law_written_entries_are_read(entries: Seq<EntryView>)
    requires
        forall|i: int| 0 <= i < entries.len() ==> separable(#[trigger] entries[i]),
    ensures
        parsed(serialized(entries)) == all_reread(entries),
{
    lemma_file_lines(entries);
    lemma_file_entries(entries);
}

/// A body without a line `---` and without a carriage return before a newline is read as it
/// was written.
pub proof fn law_plain_bodies_are_kept(e: EntryView)
    requires
        plain_body(e.body),
    ensures
        no_rules(body_lines(e)),
        reread(e).body == e.body,
{
    let lines = text::split(e.body, text::newline());
    lemma_ended(e.body, Seq::<char>::empty());
    assert(clean(lines) =~= lines);
    text::lemma_joined_split(e.body);
}

/// The lines of the fields of an entry whose fields are one line each: what is read from
/// them is what was written, but for the white space and the quotes around what is written
/// without quotes.
proof fn lemma_fields(e: EntryView)
    requires
        !e.title.contains('\n'),
        !e.category.contains('\n'),
        !e.created.contains('\n'),
        e.source_conversation matches Some(s) ==> !s.contains('\n'),
        !e.summary.contains('\n'),
    ensures
        ({
            let fields = field_lines(e);
            &&& no_rules(fields)
            &&& field_value(fields, "title"@) == Some(e.title)
            &&& field_value(fields, "category"@) == Some(unquoted(text::trimmed(e.category)))
            &&& field_value(fields, "importance"@) == Some(digits::decimal(e.importance as nat))
            &&& field_value(fields, "created"@) == Some(unquoted(text::trimmed(e.created)))
            &&& field_value(fields, "source_conversation"@) == e.source_conversation
            &&& field_value(fields, "summary"@) == Some(e.summary)
        }),
{
    reveal_strlit("title");
    reveal_strlit("title: ");
    reveal_strlit("category");
    reveal_strlit("category: ");
    reveal_strlit("importance");
    reveal_strlit("importance: ");
    reveal_strlit("created");
    reveal_strlit("created: ");
    reveal_strlit("source_conversation");
    reveal_strlit("source_conversation: ");
    reveal_strlit("summary");
    reveal_strlit("summary: ");
    lemma_number(e.importance);
    lemma_quoted(e.title);
    lemma_quoted(e.summary);
    let d = digits::decimal(e.importance as nat);
    assert("title: "@ =~= "title"@ + seq![':', ' ']);
    assert("category: "@ =~= "category"@ + seq![':', ' ']);
    assert("importance: "@ =~= "importance"@ + seq![':', ' ']);
    assert("created: "@ =~= "created"@ + seq![':', ' ']);
    assert("source_conversation: "@ =~= "source_conversation"@ + seq![':', ' ']);
    assert("summary: "@ =~= "summary"@ + seq![':', ' ']);
    lemma_field("title: "@, "title"@, quoted(e.title));
    lemma_field("category: "@, "category"@, e.category);
    lemma_field("importance: "@, "importance"@, d);
    lemma_field("created: "@, "created"@, e.created);
    lemma_field("summary: "@, "summary"@, quoted(e.summary));
    if let Some(s) = e.source_conversation {
        lemma_quoted(s);
        lemma_field("source_conversation: "@, "source_conversation"@, quoted(s));
    }
    let h = head_lines(e);
    let raw = h.subrange(1, h.len() - 1);
    assert forall|i: int| 0 <= i < raw.len() implies !(#[trigger] raw[i]).contains('\n')
        && !is_rule(text::without_cr(raw[i])) by {
        assert(raw[i] == h[i + 1]);
    }
    lemma_terminated(raw);
    let fields = field_lines(e);
    assert(fields == clean(raw));
    assert forall|i: int| 0 <= i < fields.len() implies !is_rule(#[trigger] fields[i]) by {
        assert(fields[i] == text::without_cr(raw[i]));
    }
    let l1 = text::without_cr("title: "@ + quoted(e.title));
    let l2 = text::without_cr("category: "@ + e.category);
    let l3 = text::without_cr("importance: "@ + d);
    let l4 = text::without_cr("created: "@ + e.created);
    let l6 = text::without_cr("summary: "@ + quoted(e.summary));
    let f4 = seq![l1, l2, l3, l4];
    let category = unquoted(text::trimmed(e.category));
    let created = unquoted(text::trimmed(e.created));
    lemma_four(f4, l1, l2, l3, l4, e.title, category, d, created);
    assert("created"@[0] != "summary"@[0]);
    match e.source_conversation {
        Some(s) => {
            let l5 = text::without_cr("source_conversation: "@ + quoted(s));
            assert(fields =~= f4.push(l5).push(l6));
            assert(f4.push(l5).push(l6).drop_last() =~= f4.push(l5));
            assert(f4.push(l5).drop_last() =~= f4);
        },
        None => {
            assert(fields =~= f4.push(l6));
            assert(f4.push(l6).drop_last() =~= f4);
        },
    }
    reveal_with_fuel(field_value, 3);
}

/// An entry whose fields are each one line, and whose body has no line `---`, is told from
/// those around it. It is read as it was written, but for what stands around the category
/// and the day, which are written without quotes, and for the lines of its body.
pub proof fn law_one_line_fields_are_told_apart(e: EntryView)
    requires
        one_line_fields(e),
    ensures
        separable(e),
        reread(e) == (EntryView {
            category: unquoted(text::trimmed(e.category)),
            created: unquoted(text::trimmed(e.created)),
            body: reread(e).body,
            ..e
        }),
{
    lemma_fields(e);
    lemma_number(e.importance);
    assert(reread(e) =~= (EntryView {
        category: unquoted(text::trimmed(e.category)),
        created: unquoted(text::trimmed(e.created)),
        body: reread(e).body,
        ..e
    }));
}

/// What the file format holds as it stands is read as it was written.
pub proof fn law_storable_entries_are_kept(e: EntryView)
    requires
        storable(e),
    ensures
        separable(e),
        reread(e) == e,
{
    law_plain_bodies_are_kept(e);
    law_one_line_fields_are_told_apart(e);
    assert(reread(e) =~= e);
}

/// Entries that were written to a file are read from it again, where the file format holds
/// them as they stand.
pub proof fn law_entries_round_trip(entries: Seq<EntryView>)
    requires
        forall|i: int| 0 <= i < entries.len() ==> storable(#[trigger] entries[i]),
    ensures
        parsed(serialized(entries)) == entries,
{
    assert forall|i: int| 0 <= i < entries.len() implies separable(#[trigger] entries[i]) && reread(
        entries[i],
    ) == entries[i] by {
        law_storable_entries_are_kept(entries[i]);
    }
    law_written_entries_are_read(entries);
    assert(all_reread(entries) =~= entries);
}

/// Replacing pairs by something else than a newline brings none.
proof fn lemma_pair_replaced_lines(s: Seq<char>, a: char, b: char, c: char)
    requires
        !s.contains('\n'),
        c != '\n',
    ensures
        !pair_replaced(s, a, b, c).contains('\n'),
    decreases s.len(),
{
    if s.len() >= 2 {
        let (head, rest) = if s[0] == a && s[1] == b {
            (c, s.skip(2))
        } else {
            (s[0], s.drop_first())
        };
        let k = s.len() - rest.len();
        assert(s.contains(s[0]));
        assert forall|i: int| 0 <= i < rest.len() implies rest[i] != '\n' by {
            assert(rest[i] == s[i + k]);
            assert(s.contains(s[i + k]));
        }
        lemma_pair_replaced_lines(rest, a, b, c);
        let f = pair_replaced(rest, a, b, c);
        assert(pair_replaced(s, a, b, c) == seq![head] + f);
        assert forall|i: int| 0 <= i < (seq![head] + f).len() implies (seq![head] + f)[i]
            != '\n' by {
            if i > 0 {
                assert(f.contains(f[i - 1]));
            }
        }
    }
}

/// The value of a field is one line.
proof fn lemma_value_is_one_line(line: Seq<char>)
    requires
        !line.contains('\n'),
    ensures
        field_of(line) matches Some((_, v)) ==> !v.contains('\n'),
{
    text::lemma_find(line, colon());
    if let Some(i) = text::find(line, colon()) {
        let raw = line.skip(i + 1);
        assert forall|k: int| 0 <= k < raw.len() implies raw[k] != '\n' by {
            assert(line.contains(line[i + 1 + k]));
        }
        text::lemma_trimmed_holds(raw, '\n');
        let t = text::trimmed(raw);
        if t.len() >= 2 {
            let inner = t.subrange(1, t.len() - 1);
            assert forall|k: int| 0 <= k < inner.len() implies inner[k] != '\n' by {
                assert(t.contains(t[k + 1]));
            }
            lemma_pair_replaced_lines(inner, '\\', '"', '"');
            lemma_pair_replaced_lines(
                pair_replaced(inner, '\\', '"', '"'),
                '\\',
                '\\',
                '\\',
            );
        }
    }
}

/// The values of the fields are one line each.
proof fn lemma_values_are_one_line(lines: Seq<Seq<char>>, name: Seq<char>)
    requires
        forall|i: int| 0 <= i < lines.len() ==> !(#[trigger] lines[i]).contains('\n'),
    ensures
        field_value(lines, name) matches Some(v) ==> !v.contains('\n'),
    decreases lines.len(),
{
    if lines.len() > 0 {
        let front = lines.drop_last();
        assert(!lines[lines.len() - 1].contains('\n'));
        lemma_value_is_one_line(lines.last());
        assert forall|i: int| 0 <= i < front.len() implies !(#[trigger] front[i]).contains(
            '\n',
        ) by {
            assert(front[i] == lines[i]);
        }
        lemma_values_are_one_line(front, name);
    }
}

/// Whether no piece between newlines is `---`.
spec fn free_of_rules(s: Seq<char>) -> bool {
    no_rules(text::split(s, text::newline()))
}

/// Dropping white space at the front brings no line `---`.
proof fn lemma_free_leading(s: Seq<char>)
    requires
        free_of_rules(s),
    ensures
        free_of_rules(text::drop_leading(s, text::spaces())),
    decreases s.len(),
{
    if s.len() > 0 && text::is_space(s[0]) {
        let c = s[0];
        let t = s.drop_first();
        let p = text::newline();
        let x = text::split(s, p);
        let y = text::split(t, p);
        let nl: Seq<char> = seq!['\n'];
        assert(nl[0] == '\n');
        text::lemma_split_nonempty(t, p);
        if c == '\n' {
            let nothing = Seq::<char>::empty();
            text::lemma_split_concat(nothing, '\n', t, p);
            assert(nothing.push('\n') + t =~= s);
            assert forall|i: int| 0 <= i < y.len() implies !is_rule(#[trigger] y[i]) by {
                assert(y[i] == x[text::split(nothing, p).len() + i]);
            }
        } else {
            text::lemma_split_front(c, t, p);
            assert(seq![c] + t =~= s);
            assert forall|i: int| 0 <= i < y.len() implies !is_rule(#[trigger] y[i]) by {
                if i > 0 {
                    assert(x[i] == y[i]);
                } else {
                    assert(x[0] == seq![c] + y[0]);
                    assert(x[0].drop_first() =~= y[0]);
                }
            }
        }
        lemma_free_leading(t);
    }
}

/// Dropping white space at the end brings no line `---`.
proof fn lemma_free_trailing(s: Seq<char>)
    requires
        free_of_rules(s),
    ensures
        free_of_rules(text::drop_trailing(s, text::spaces())),
    decreases s.len(),
{
    if s.len() > 0 && text::is_space(s.last()) {
        let t = s.drop_last();
        let p = text::newline();
        let x = text::split(s, p);
        let y = text::split(t, p);
        text::lemma_split_nonempty(t, p);
        assert forall|i: int| 0 <= i < y.len() implies !is_rule(#[trigger] y[i]) by {
            if i < y.len() - 1 || p(s.last()) {
                assert(x[i] == y[i]);
            } else {
                assert(x[i] == y[i].push(s.last()));
                text::lemma_trimmed_push_space(y[i], s.last());
            }
        }
        lemma_free_trailing(t);
    }
}

/// An entry that is made of lines of a file has one line for each field, and no line `---`
/// in its body.
proof fn lemma_read_entry(head: Seq<Seq<char>>, tail: Seq<Seq<char>>)
    requires
        forall|i: int| 0 <= i < head.len() ==> !(#[trigger] head[i]).contains('\n'),
        forall|i: int| 0 <= i < tail.len() ==> !(#[trigger] tail[i]).contains('\n'),
        no_rules(tail),
    ensures
        one_line_fields(entry_of(head, tail)),
{
    let e = entry_of(head, tail);
    lemma_values_are_one_line(head, "title"@);
    lemma_values_are_one_line(head, "category"@);
    lemma_values_are_one_line(head, "created"@);
    lemma_values_are_one_line(head, "source_conversation"@);
    lemma_values_are_one_line(head, "summary"@);
    let s = text::joined(tail, seq!['\n']);
    lemma_empty_line();
    if tail.len() > 0 {
        text::lemma_split_joined(tail);
    } else {
        assert(text::split(s, text::newline()) =~= seq![Seq::<char>::empty()]);
    }
    assert(free_of_rules(s));
    lemma_free_leading(s);
    lemma_free_trailing(text::drop_leading(s, text::spaces()));
    text::lemma_trimmed_twice(s);
    lemma_ended(e.body, Seq::<char>::empty());
    let lines = text::split(e.body, text::newline());
    assert forall|i: int| 0 <= i < body_lines(e).len() implies !is_rule(
        #[trigger] body_lines(e)[i],
    ) by {
        assert(body_lines(e)[i] == text::without_cr(lines[i]));
        text::lemma_trimmed_without_cr(lines[i]);
    }
}

/// The entries in lines have one line for each field, and no line `---` in their bodies.
proof fn lemma_read_entries(lines: Seq<Seq<char>>)
    requires
        forall|i: int| 0 <= i < lines.len() ==> !(#[trigger] lines[i]).contains('\n'),
    ensures
        forall|i: int|
            0 <= i < entries_in(lines).len() ==> one_line_fields(#[trigger] entries_in(lines)[i]),
    decreases lines.len(),
{
    let i = rule_index(lines) as int;
    lemma_rule_index(lines);
    if i < lines.len() {
        let head = lines.skip(i + 1);
        let j = rule_index(head) as int;
        lemma_rule_index(head);
        if j < head.len() {
            let tail = head.skip(j + 1);
            let k = rule_index(tail) as int;
            lemma_rule_index(tail);
            let rest = tail.skip(k);
            assert forall|x: int| 0 <= x < rest.len() implies !(#[trigger] rest[x]).contains(
                '\n',
            ) by {
                assert(rest[x] == lines[i + 1 + j + 1 + k + x]);
            }
            lemma_read_entries(rest);
            let h = head.take(j);
            let t = tail.take(k);
            assert forall|x: int| 0 <= x < h.len() implies !(#[trigger] h[x]).contains('\n') by {
                assert(h[x] == lines[i + 1 + x]);
            }
            assert forall|x: int| 0 <= x < t.len() implies !(#[trigger] t[x]).contains('\n') by {
                assert(t[x] == lines[i + 1 + j + 1 + x]);
            }
            assert(no_rules(t)) by {
                assert forall|x: int| 0 <= x < t.len() implies !is_rule(#[trigger] t[x]) by {
                    assert(t[x] == tail[x]);
                }
            }
            lemma_read_entry(h, t);
            let all = entries_in(lines);
            let others = entries_in(rest);
            assert forall|x: int| 0 <= x < all.len() implies one_line_fields(
                #[trigger] all[x],
            ) by {
                if has_fields(h) {
                    if x > 0 {
                        assert(all[x] == others[x - 1]);
                    }
                } else {
                    assert(all[x] == others[x]);
                }
            }
        }
    }
}

/// What is read from a file has one line for each field, and no line `---` in the bodies: it
/// can be written again.
pub proof fn law_read_entries_can_be_written(content: Seq<char>)
    ensures
        forall|i: int|
            0 <= i < parsed(content).len() ==> one_line_fields(#[trigger] parsed(content)[i])
                && separable(parsed(content)[i]),
{
    text::lemma_line_seq_pieces(content);
    lemma_read_entries(text::line_seq(content));
    assert forall|i: int| 0 <= i < parsed(content).len() implies one_line_fields(
        #[trigger] parsed(content)[i],
    ) && separable(parsed(content)[i]) by {
        law_one_line_fields_are_told_apart(parsed(content)[i]);
    }
}

// ---------------------------------------------------------------------------
// Laws of reading
// ---------------------------------------------------------------------------

/// A line is a field where it has a colon: what stands before the first is its name, in
/// whatever letters, and what follows its value, without white space and quotes around it.
pub proof fn law_fields_are_told_by_a_colon(name: Seq<char>, value: Seq<char>)
    requires
        !name.contains(':'),
    ensures
        field_of(name.push(':') + value) == Some(
            (text::lower(text::trimmed(name)), unquoted(text::trimmed(value))),
        ),
        field_of(name) is None,
{
    let set: Seq<char> = seq![':'];
    let line = name.push(':') + value;
    let n = name.len() as int;
    assert(set[0] == ':');
    assert(line[n] == ':');
    assert(colon()(line[n])) by {
        assert(set.contains(':'));
    }
    assert forall|i: int| 0 <= i < n implies !colon()(#[trigger] line[i]) && !colon()(name[i]) by {
        assert(line[i] == name[i]);
        assert(name.contains(name[i]));
        if set.contains(name[i]) {
            let k = choose|k: int| 0 <= k < set.len() && set[k] == name[i];
            assert(k == 0);
        }
    }
    text::lemma_find_is(line, colon(), n);
    text::lemma_find_none(name, colon());
    assert(line.take(n) =~= name);
    assert(line.skip(n + 1) =~= value);
}

/// A value in quotes of either kind is what stands in them, where nothing in it is escaped;
/// any other value stands for itself.
pub proof fn law_quotes_are_taken_off(s: Seq<char>)
    ensures
        !s.contains('\\') ==> unquoted(seq!['"'] + s + seq!['"']) == s,
        unquoted(seq!['\''] + s + seq!['\'']) == s,
        s.len() > 0 && s[0] != '"' && s[0] != '\'' ==> unquoted(s) == s,
{
    let d = seq!['"'] + s + seq!['"'];
    let q = seq!['\''] + s + seq!['\''];
    assert(d.subrange(1, d.len() - 1) =~= s);
    assert(q.subrange(1, q.len() - 1) =~= s);
    assert(d[0] == '"' && d.last() == '"');
    assert(q[0] == '\'' && q.last() == '\'');
    if !s.contains('\\') {
        lemma_nothing_replaced(s, '"', '"');
        lemma_nothing_replaced(s, '\\', '\\');
    }
}

/// Where there is no backslash nothing is replaced.
proof fn lemma_nothing_replaced(s: Seq<char>, b: char, c: char)
    requires
        !s.contains('\\'),
    ensures
        pair_replaced(s, '\\', b, c) == s,
    decreases s.len(),
{
    if s.len() >= 2 {
        let rest = s.drop_first();
        assert(s.contains(s[0]));
        if rest.contains('\\') {
            let k = choose|k: int| 0 <= k < rest.len() && rest[k] == '\\';
            assert(s[k + 1] == '\\');
        }
        lemma_nothing_replaced(rest, b, c);
        assert(seq![s[0]] + rest =~= s);
    }
}

/// Whether a line gives the field `name`.
pub open spec fn gives(line: Seq<char>, name: Seq<char>) -> bool {
    field_of(line) matches Some((n, _)) && n == name
}

/// Of lines with one name the last decides; a field that no line gives has no value.
pub proof fn law_last_line_decides(lines: Seq<Seq<char>>, name: Seq<char>, value: Seq<char>, k: int)
    ensures
        0 <= k < lines.len() && field_of(lines[k]) == Some((name, value)) && (forall|i: int|
            k < i < lines.len() ==> !gives(#[trigger] lines[i], name)) ==> field_value(lines, name)
            == Some(value),
        (forall|i: int| 0 <= i < lines.len() ==> !gives(#[trigger] lines[i], name)) ==> field_value(
            lines,
            name,
        ) is None,
    decreases lines.len(),
{
    if lines.len() > 0 {
        let front = lines.drop_last();
        assert(lines.last() == lines[lines.len() - 1]);
        law_last_line_decides(front, name, value, k);
        assert(forall|i: int| 0 <= i < front.len() ==> #[trigger] front[i] == lines[i]);
    }
}

/// An entry has the value of each field that its lines give, and nothing where they do not;
/// its importance is 0 where they give no number, and its body is the lines behind them.
pub proof fn law_entry_has_its_fields(head: Seq<Seq<char>>, tail: Seq<Seq<char>>, v: Seq<char>, n: u8)
    ensures
        ({
            let e = entry_of(head, tail);
            &&& field_value(head, "title"@) == Some(v) ==> e.title == v
            &&& field_value(head, "title"@) is None ==> e.title.len() == 0
            &&& field_value(head, "category"@) == Some(v) ==> e.category == v
            &&& field_value(head, "category"@) is None ==> e.category.len() == 0
            &&& field_value(head, "created"@) == Some(v) ==> e.created == v
            &&& field_value(head, "created"@) is None ==> e.created.len() == 0
            &&& field_value(head, "summary"@) == Some(v) ==> e.summary == v
            &&& field_value(head, "summary"@) is None ==> e.summary.len() == 0
            &&& field_value(head, "source_conversation"@) == Some(v) ==> e.source_conversation
                == Some(v)
            &&& field_value(head, "source_conversation"@) is None ==> e.source_conversation is None
            &&& field_value(head, "importance"@) == Some(digits::decimal(n as nat)) ==> e.importance
                == n
            &&& field_value(head, "importance"@) is None ==> e.importance == 0
            &&& e.body == text::trimmed(text::joined(tail, seq!['\n']))
        }),
{
    digits::law_numbers_are_read_back(0, n as nat);
}

/// The lines of a file are read entry by entry: what stands between a rule and the next is
/// the fields of one, what follows up to the next rule its body, and the rest is read on
/// from there. Lines before the first rule say nothing, and fields without a colon make no
/// entry.
pub proof fn law_entries_are_read_in_turn(
    before: Seq<Seq<char>>,
    head: Seq<Seq<char>>,
    tail: Seq<Seq<char>>,
    rest: Seq<Seq<char>>,
)
    requires
        forall|i: int| 0 <= i < before.len() ==> !is_rule(#[trigger] before[i]),
        forall|i: int| 0 <= i < head.len() ==> !is_rule(#[trigger] head[i]),
        forall|i: int| 0 <= i < tail.len() ==> !is_rule(#[trigger] tail[i]),
        rest.len() > 0 ==> is_rule(rest[0]),
    ensures
        ({
            let lines = before + seq!["---"@] + head + seq!["---"@] + tail + rest;
            let fields = exists|i: int|
                0 <= i < head.len() && field_of(#[trigger] head[i]) is Some;
            &&& fields ==> entries_in(lines) == seq![entry_of(head, tail)] + entries_in(rest)
            &&& !fields ==> entries_in(lines) == entries_in(rest)
        }),
        entries_in(before).len() == 0,
        entries_in(before + seq!["---"@] + head).len() == 0,
{
    let lines = before + seq!["---"@] + head + seq!["---"@] + tail + rest;
    let i = before.len() as int;
    lemma_rule();
    assert(lines[i] == "---"@);
    assert forall|k: int| 0 <= k < i implies !is_rule(#[trigger] lines[k]) by {
        assert(lines[k] == before[k]);
    }
    lemma_rule_index_is(lines, i);
    let after = lines.skip(i + 1);
    let j = head.len() as int;
    assert(after =~= head + seq!["---"@] + tail + rest);
    assert(after[j] == "---"@);
    assert forall|k: int| 0 <= k < j implies !is_rule(#[trigger] after[k]) by {
        assert(after[k] == head[k]);
    }
    lemma_rule_index_is(after, j);
    assert(after.take(j) =~= head);
    let behind = after.skip(j + 1);
    let k = tail.len() as int;
    assert(behind =~= tail + rest);
    assert forall|x: int| 0 <= x < k implies !is_rule(#[trigger] behind[x]) by {
        assert(behind[x] == tail[x]);
    }
    if rest.len() > 0 {
        assert(behind[k] == rest[0]);
    }
    lemma_rule_index_is(behind, k);
    assert(behind.take(k) =~= tail);
    assert(behind.skip(k) =~= rest);
    lemma_rule_index_is(before, before.len() as int);
    let open = before + seq!["---"@] + head;
    assert(open[i] == "---"@);
    assert forall|x: int| 0 <= x < i implies !is_rule(#[trigger] open[x]) by {
        assert(open[x] == before[x]);
    }
    lemma_rule_index_is(open, i);
    assert(open.skip(i + 1) =~= head);
    lemma_rule_index_is(head, head.len() as int);
}

} // verus!
