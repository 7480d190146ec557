//! What is remembered about the user, as a directory of Markdown files.
//!
//! [`MemoryState`] holds the files of the directory and notes every change that is to
//! be made to them, in order; the caller reads the directory and makes the changes.
//! Each file holds entries (see [`crate::entries`]). A category has a file of its own,
//! and `index.md` lists the titles and summaries of all entries.
use vstd::prelude::*;
use vstd::string::*;

use crate::clock;
use crate::digits;
use crate::entries;
use crate::entries::{EntryView, MemoryEntry};
use crate::json;
use crate::keyed;
use crate::naming;
use crate::text;
use crate::tools;
use crate::tools::{CallView, OutputView, ToolCall, ToolOutput};

verus! {

// ---------------------------------------------------------------------------
// The model
// ---------------------------------------------------------------------------

/// What was read from a file: its text, or why it could not be read.
pub enum FileText {
    Readable(String),
    Unreadable(String),
}

/// What a file holds.
pub open spec fn file_view() -> spec_fn(FileText) -> Result<Seq<char>, Seq<char>> {
    |f: FileText|
        match f {
            FileText::Readable(s) => Ok(s@),
            FileText::Unreadable(e) => Err(e@),
        }
}

/// The files of a directory, in increasing order of their names.
pub type Files = Seq<(Seq<char>, Result<Seq<char>, Seq<char>>)>;

/// A change that is to be made to the directory.
pub enum Change {
    /// Make an empty file.
    Create { name: String },
    /// Replace the text of a file, which may not exist yet.
    Write { name: String, content: String },
    /// Remove a file.
    Delete { name: String },
}

/// What a change holds.
#[verifier::ext_equal]
pub enum ChangeView {
    Create { name: Seq<char> },
    Write { name: Seq<char>, content: Seq<char> },
    Delete { name: Seq<char> },
}

impl View for Change {
    type V = ChangeView;

    open spec fn view(&self) -> ChangeView {
        match self {
            Change::Create { name } => ChangeView::Create { name: name@ },
            Change::Write { name, content } => ChangeView::Write { name: name@, content: content@ },
            Change::Delete { name } => ChangeView::Delete { name: name@ },
        }
    }
}

/// What the changes hold.
pub open spec fn change_views(v: Seq<Change>) -> Seq<ChangeView> {
    Seq::new(v.len(), |i: int| v[i]@)
}

/// The files after a change.
pub open spec fn changed(files: Files, change: ChangeView) -> Files {
    match change {
        ChangeView::Create { name } => keyed::put(files, name, Ok(Seq::empty())),
        ChangeView::Write { name, content } => keyed::put(files, name, Ok(content)),
        ChangeView::Delete { name } => keyed::without(files, name),
    }
}

/// What is told of a change that could not be made.
pub fn change_failed(change: &Change, error: &str) -> (r: String)
    ensures
        r@ == match change@ {
            ChangeView::Create { name } => "create "@ + name + ": "@ + error@,
            ChangeView::Write { name, .. } => "write "@ + name + ": "@ + error@,
            ChangeView::Delete { name } => "delete "@ + name + ": "@ + error@,
        },
{
    let (mut message, name) = match change {
        Change::Create { name } => ("create ".to_owned(), name),
        Change::Write { name, .. } => ("write ".to_owned(), name),
        Change::Delete { name } => ("delete ".to_owned(), name),
    };
    message.append(name.as_str());
    message.append(": ");
    message.append(error);
    message
}

/// The memory directory.
pub struct MemoryState {
    files: Vec<(String, FileText)>,
    absent: String,
    changes: Vec<Change>,
}

/// What a memory directory holds: its files, what the system says of a file that is
/// not there, and the changes that are still to be made.
#[verifier::ext_equal]
pub struct MemoryView {
    pub files: Files,
    pub absent: Seq<char>,
    pub changes: Seq<ChangeView>,
}

impl View for MemoryState {
    type V = MemoryView;

    closed spec fn view(&self) -> MemoryView {
        MemoryView {
            files: keyed::mapped(keyed::pairs(self.files@), file_view()),
            absent: self.absent@,
            changes: change_views(self.changes@),
        }
    }
}

/// The directory after a change.
pub open spec fn after(m: MemoryView, change: ChangeView) -> MemoryView {
    MemoryView {
        files: changed(m.files, change),
        absent: m.absent,
        changes: m.changes.push(change),
    }
}

// ---------------------------------------------------------------------------
// Categories and files
// ---------------------------------------------------------------------------

/// The file that lists the others.
pub open spec fn index_name() -> Seq<char> {
    "index.md"@
}

/// The files of the categories, in the order in which they are listed.
pub open spec fn canonical_names() -> Seq<Seq<char>> {
    seq!["preferences.md"@, "identity.md"@, "goals.md"@, "notes.md"@]
}

/// The file of a category.
pub open spec fn category_file(category: Seq<char>) -> Option<Seq<char>> {
    if category == "preference"@ {
        Some("preferences.md"@)
    } else if category == "identity"@ {
        Some("identity.md"@)
    } else if category == "goal"@ {
        Some("goals.md"@)
    } else if category == "note"@ {
        Some("notes.md"@)
    } else {
        None
    }
}

/// The category of a file: `note`, unless it is the file of another.
pub open spec fn file_category(file: Seq<char>) -> Seq<char> {
    if file == "preferences.md"@ {
        "preference"@
    } else if file == "identity.md"@ {
        "identity"@
    } else if file == "goals.md"@ {
        "goal"@
    } else {
        "note"@
    }
}

/// The file of a category.
pub fn canonical_file(category: &str) -> (r: Option<String>)
    ensures
        text::opt_text(r) == category_file(category@),
{
    if text::same(category, "preference") {
        Some("preferences.md".to_owned())
    } else if text::same(category, "identity") {
        Some("identity.md".to_owned())
    } else if text::same(category, "goal") {
        Some("goals.md".to_owned())
    } else if text::same(category, "note") {
        Some("notes.md".to_owned())
    } else {
        None
    }
}

/// The category of a file.
pub fn infer_category(file: &str) -> (r: String)
    ensures
        r@ == file_category(file@),
{
    if text::same(file, "preferences.md") {
        "preference".to_owned()
    } else if text::same(file, "identity.md") {
        "identity".to_owned()
    } else if text::same(file, "goals.md") {
        "goal".to_owned()
    } else {
        "note".to_owned()
    }
}

/// Whether a file is listed beside those of the categories.
pub open spec fn is_extra(name: Seq<char>) -> bool {
    text::ends(name, ".md"@) && name != index_name() && !canonical_names().contains(name)
}

/// The names of the files that are listed beside those of the categories.
pub open spec fn extra_names(files: Files) -> Seq<Seq<char>>
    decreases files.len(),
{
    if files.len() == 0 {
        Seq::empty()
    } else {
        let before = extra_names(files.drop_last());
        if is_extra(files.last().0) {
            before.push(files.last().0)
        } else {
            before
        }
    }
}

/// The files that are listed: those of the categories first, then the others in the
/// order of their names.
pub open spec fn indexable(files: Files) -> Seq<Seq<char>> {
    canonical_names() + extra_names(files)
}

/// The entries of a file; one that is not there has none.
pub open spec fn entries_at(files: Files, name: Seq<char>) -> Result<Seq<EntryView>, Seq<char>> {
    match keyed::lookup(files, name) {
        Some(Ok(content)) => Ok(entries::parsed(content)),
        Some(Err(e)) => Err("read "@ + name + ": "@ + e),
        None => Ok(Seq::empty()),
    }
}

// ---------------------------------------------------------------------------
// The index
// ---------------------------------------------------------------------------

/// The line of an entry in the index.
pub open spec fn index_line(e: EntryView) -> Seq<char> {
    if e.summary.len() == 0 {
        "- "@ + e.title + "\n"@
    } else {
        "- "@ + e.title + " — "@ + e.summary + "\n"@
    }
}

/// The lines of entries in the index.
pub open spec fn index_lines(es: Seq<EntryView>) -> Seq<char>
    decreases es.len(),
{
    if es.len() == 0 {
        Seq::empty()
    } else {
        index_lines(es.drop_last()) + index_line(es.last())
    }
}

/// The section of a file in the index; one without entries has none.
pub open spec fn index_section(name: Seq<char>, es: Seq<EntryView>) -> Seq<char> {
    if es.len() == 0 {
        Seq::empty()
    } else {
        "\n## "@ + name + "\n"@ + index_lines(es)
    }
}

/// The sections of files in the index, or why one of them cannot be read.
pub open spec fn index_sections(files: Files, names: Seq<Seq<char>>) -> Result<
    Seq<char>,
    Seq<char>,
>
    decreases names.len(),
{
    if names.len() == 0 {
        Ok(Seq::empty())
    } else {
        match index_sections(files, names.drop_last()) {
            Ok(before) => match entries_at(files, names.last()) {
                Ok(es) => Ok(before + index_section(names.last(), es)),
                Err(e) => Err(e),
            },
            Err(e) => Err(e),
        }
    }
}

/// The text of the index, or why one of the files cannot be read.
pub open spec fn index_text(files: Files) -> Result<Seq<char>, Seq<char>> {
    match index_sections(files, indexable(files)) {
        Ok(sections) => if sections.len() == 0 {
            Ok("# Memory index\n"@ + "\n_No memories saved yet._\n"@)
        } else {
            Ok("# Memory index\n"@ + sections)
        },
        Err(e) => Err(e),
    }
}

/// The directory with a new index, and whether there is one.
pub open spec fn reindexed(m: MemoryView) -> (MemoryView, Result<(), Seq<char>>) {
    match index_text(m.files) {
        Ok(content) => (after(m, ChangeView::Write { name: index_name(), content }), Ok(())),
        Err(e) => (m, Err(e)),
    }
}

// ---------------------------------------------------------------------------
// Loading
// ---------------------------------------------------------------------------

/// The directory with a file in it, made where it was not there.
pub open spec fn with_file(m: MemoryView, name: Seq<char>) -> MemoryView {
    match keyed::lookup(m.files, name) {
        Some(_) => m,
        None => after(m, ChangeView::Create { name }),
    }
}

/// The directory with the files of all categories.
pub open spec fn with_categories(m: MemoryView) -> MemoryView {
    with_file(
        with_file(with_file(with_file(m, "preferences.md"@), "identity.md"@), "goals.md"@),
        "notes.md"@,
    )
}

/// The directory with all files that it always has.
pub open spec fn ensured(m: MemoryView) -> (MemoryView, Result<(), Seq<char>>) {
    let n = with_categories(m);
    match keyed::lookup(n.files, index_name()) {
        Some(_) => (n, Ok(())),
        None => reindexed(n),
    }
}

/// The result of an operation by what it holds.
pub open spec fn unit_view(r: Result<(), String>) -> Result<(), Seq<char>> {
    match r {
        Ok(_) => Ok(()),
        Err(e) => Err(e@),
    }
}

/// The result of an operation by what it holds.
pub open spec fn text_view(r: Result<String, String>) -> Result<Seq<char>, Seq<char>> {
    match r {
        Ok(s) => Ok(s@),
        Err(e) => Err(e@),
    }
}

// ---------------------------------------------------------------------------
// Reading
// ---------------------------------------------------------------------------

/// The text of the file that a path names.
pub open spec fn file_text(m: MemoryView, path: Seq<char>) -> Result<Seq<char>, Seq<char>> {
    match naming::normalized(path) {
        Ok(name) => match keyed::lookup(m.files, name) {
            Some(Ok(content)) => Ok(content),
            Some(Err(e)) => Err("read "@ + name + ": "@ + e),
            None => Err("read "@ + name + ": "@ + m.absent),
        },
        Err(e) => Err(e),
    }
}

/// The bodies of entries that have one.
pub open spec fn bodies(es: Seq<EntryView>) -> Seq<Seq<char>>
    decreases es.len(),
{
    if es.len() == 0 {
        Seq::empty()
    } else {
        let before = bodies(es.drop_last());
        if text::blank(es.last().body) {
            before
        } else {
            before.push(text::trimmed(es.last().body))
        }
    }
}

/// What a file says: the bodies of its entries, or all of it where it has none.
pub open spec fn body_text(content: Seq<char>) -> Seq<char> {
    let es = entries::parsed(content);
    if es.len() == 0 {
        text::trimmed(content)
    } else {
        text::joined(bodies(es), "\n\n---\n\n"@)
    }
}

/// What the file that a path names says.
pub open spec fn body_at(m: MemoryView, path: Seq<char>) -> Result<Seq<char>, Seq<char>> {
    match naming::normalized(path) {
        Ok(name) => match file_text(m, name) {
            Ok(content) => Ok(body_text(content)),
            Err(e) => Err(e),
        },
        Err(e) => Err(e),
    }
}

/// What stands in the prompt above the index.
pub open spec fn context_intro() -> Seq<char> {
    "## Long-term memory\nYou have a long-term memory kept as Markdown files. The index below lists saved entries with one-line summaries.\n- Use `read_memory(path)` to read a file's full contents on demand.\n- Use `save_memory(content, path, category, importance)` to store a stable, user-specific fact. Pass `path` to write to a specific file (created if missing), or omit it and let `category` (preference | identity | goal | note) pick the file. importance is 0-5. Only save durable facts, not transient chat context.\n\n"@
}

/// What is told the model of its memory: how to use it, and the index.
pub open spec fn context_of(m: MemoryView) -> Seq<char> {
    match file_text(m, index_name()) {
        Ok(index) => context_intro() + text::trimmed(index),
        Err(_) => Seq::empty(),
    }
}

// ---------------------------------------------------------------------------
// Listing
// ---------------------------------------------------------------------------

/// A memory file as it is shown to the user.
#[derive(Clone, Debug)]
pub struct MemoryFile {
    pub name: String,
    pub content: String,
    /// Whether the file is generated from the others, so that it cannot be edited.
    pub generated: bool,
}

/// What a memory file holds.
#[verifier::ext_equal]
pub struct MemoryFileView {
    pub name: Seq<char>,
    pub content: Seq<char>,
    pub generated: bool,
}

impl View for MemoryFile {
    type V = MemoryFileView;

    open spec fn view(&self) -> MemoryFileView {
        MemoryFileView { name: self.name@, content: self.content@, generated: self.generated }
    }
}

/// What the memory files hold.
pub open spec fn listing_views(v: Seq<MemoryFile>) -> Seq<MemoryFileView> {
    Seq::new(v.len(), |i: int| v[i]@)
}

/// The Markdown files of a directory as they are shown to the user, in the order of
/// their names. One that cannot be read is shown empty.
pub open spec fn listing(files: Files) -> Seq<MemoryFileView>
    decreases files.len(),
{
    if files.len() == 0 {
        Seq::empty()
    } else {
        let before = listing(files.drop_last());
        let (name, content) = files.last();
        if text::ends(name, ".md"@) {
            before.push(
                MemoryFileView {
                    name,
                    content: match content {
                        Ok(s) => s,
                        Err(_) => Seq::empty(),
                    },
                    generated: name == index_name(),
                },
            )
        } else {
            before
        }
    }
}

// ---------------------------------------------------------------------------
// Saving
// ---------------------------------------------------------------------------

/// An argument that was given and is not blank, trimmed.
pub open spec fn given(s: Option<Seq<char>>) -> Option<Seq<char>> {
    match s {
        Some(t) => if text::blank(t) {
            None
        } else {
            Some(text::trimmed(t))
        },
        None => None,
    }
}

/// The category that was given, in small letters.
pub open spec fn given_category(s: Option<Seq<char>>) -> Option<Seq<char>> {
    match given(s) {
        Some(t) => Some(text::lower(t)),
        None => None,
    }
}

/// The file into which a fact goes and the category under which it is kept. A path
/// decides before a category does. The index takes no fact.
pub open spec fn destination(path: Option<Seq<char>>, category: Option<Seq<char>>) -> Result<
    (Seq<char>, Seq<char>),
    Seq<char>,
> {
    let category = given_category(category);
    match given(path) {
        Some(p) => match naming::normalized(p) {
            Ok(file) => if file == index_name() {
                Err("index.md is generated automatically and cannot be edited"@)
            } else {
                Ok(
                    (
                        file,
                        match category {
                            Some(c) => c,
                            None => file_category(file),
                        },
                    ),
                )
            },
            Err(e) => Err(e),
        },
        None => match category {
            Some(c) => match category_file(c) {
                Some(file) => Ok((file, c)),
                None => Err(
                    "save_memory: unknown category '"@ + c
                        + "' (use preference, identity, goal, or note)"@,
                ),
            },
            None => Err("save_memory: provide either 'path' or 'category'"@),
        },
    }
}

/// An importance brought into its range.
pub open spec fn clamped(importance: i64) -> u8 {
    if importance < 0 {
        0
    } else if importance > 5 {
        5
    } else {
        importance as u8
    }
}

/// The index of the first entry with a title, whatever the case of its letters.
pub open spec fn title_index(es: Seq<EntryView>, title: Seq<char>) -> Option<int>
    decreases es.len(),
{
    if es.len() == 0 {
        None
    } else if text::lower(es[0].title) == text::lower(title) {
        Some(0)
    } else {
        match title_index(es.drop_first(), title) {
            Some(i) => Some(i + 1),
            None => None,
        }
    }
}

/// The entry that is kept for a fact. One that has the title already keeps it, and the
/// day on which it was made.
pub open spec fn entry_for(
    es: Seq<EntryView>,
    content: Seq<char>,
    category: Seq<char>,
    importance: i64,
    source: Seq<char>,
    today: Seq<char>,
) -> EntryView {
    let title = naming::title_of(content);
    let existing = title_index(es, title);
    EntryView {
        title: match existing {
            Some(i) => es[i].title,
            None => title,
        },
        category,
        importance: clamped(importance),
        created: match existing {
            Some(i) => es[i].created,
            None => today,
        },
        source_conversation: Some(source),
        summary: naming::summary_of(content),
        body: content,
    }
}

/// The entries with the one for a fact: in place of that with its title, or at the end.
pub open spec fn merged(es: Seq<EntryView>, title: Seq<char>, entry: EntryView) -> Seq<EntryView> {
    match title_index(es, title) {
        Some(i) => es.update(i, entry),
        None => es.push(entry),
    }
}

/// The directory after a fact was saved, with the file and the entry in which it is
/// kept, or why it was not.
pub open spec fn saved(
    m: MemoryView,
    content: Seq<char>,
    path: Option<Seq<char>>,
    category: Option<Seq<char>>,
    importance: i64,
    source: Seq<char>,
    today: Seq<char>,
) -> (MemoryView, Result<(Seq<char>, EntryView), Seq<char>>) {
    let (m1, ready) = ensured(m);
    let fact = text::trimmed(content);
    match ready {
        Err(e) => (m1, Err(e)),
        Ok(_) => if fact.len() == 0 {
            (m1, Err("save_memory: 'content' is empty"@))
        } else {
            match destination(path, category) {
                Err(e) => (m1, Err(e)),
                Ok((file, kept_as)) => match entries_at(m1.files, file) {
                    Err(e) => (m1, Err(e)),
                    Ok(es) => {
                        let entry = entry_for(es, fact, kept_as, importance, source, today);
                        let all = merged(es, naming::title_of(fact), entry);
                        let m2 = after(
                            m1,
                            ChangeView::Write { name: file, content: entries::serialized(all) },
                        );
                        let (m3, indexed) = reindexed(m2);
                        match indexed {
                            Err(e) => (m3, Err(e)),
                            Ok(_) => (m3, Ok((file, entry))),
                        }
                    },
                },
            }
        },
    }
}

/// The directory after the user edited a file.
pub open spec fn edited(m: MemoryView, path: Seq<char>, content: Seq<char>) -> (
    MemoryView,
    Result<(), Seq<char>>,
) {
    match naming::normalized(path) {
        Err(e) => (m, Err(e)),
        Ok(name) => if name == index_name() {
            (m, Err("index.md is generated automatically and cannot be edited"@))
        } else {
            reindexed(after(m, ChangeView::Write { name, content }))
        },
    }
}

/// The directory after the user deleted a file.
pub open spec fn deleted(m: MemoryView, path: Seq<char>) -> (MemoryView, Result<(), Seq<char>>) {
    match naming::normalized(path) {
        Err(e) => (m, Err(e)),
        Ok(name) => if name == index_name() {
            (m, Err("index.md is generated automatically and cannot be deleted"@))
        } else {
            reindexed(
                match keyed::lookup(m.files, name) {
                    Some(_) => after(m, ChangeView::Delete { name }),
                    None => m,
                },
            )
        },
    }
}

// ---------------------------------------------------------------------------
// The state
// ---------------------------------------------------------------------------

impl MemoryState {
    /// Whether the files are in order, each name once.
    pub open spec fn wf(&self) -> bool {
        keyed::increasing(self@.files)
    }

    /// The directory with the given files. `absent` is what the system says of a file
    /// that is not there.
    pub fn at(files: Vec<(String, FileText)>, absent: String) -> (r: Self)
        ensures
            r.wf(),
            r@.files == json::collected(keyed::mapped(keyed::pairs(files@), file_view())),
            r@.absent == absent@,
            r@.changes.len() == 0,
    {
        let ghost given = keyed::mapped(keyed::pairs(files@), file_view());
        let mut rest = files;
        let mut reversed: Vec<(String, FileText)> = Vec::new();
        while rest.len() > 0
            invariant
                given == keyed::mapped(keyed::pairs(files@), file_view()),
                rest@.len() + reversed@.len() == files@.len(),
                rest@ == files@.take(rest@.len() as int),
                forall|i: int|
                    0 <= i < reversed@.len() ==> #[trigger] reversed@[i] == files@[files@.len() - 1
                        - i],
            decreases rest@.len(),
        {
            let last = rest.pop();
            if let Some(f) = last {
                reversed.push(f);
            }
        }
        let mut sorted: Vec<(String, FileText)> = Vec::new();
        assert(given.take(0) =~= Seq::<(Seq<char>, Result<Seq<char>, Seq<char>>)>::empty());
        assert(keyed::mapped(keyed::pairs(sorted@), file_view()) =~= json::collected(given.take(0)));
        let ghost n = files@.len();
        while reversed.len() > 0
            invariant
                given == keyed::mapped(keyed::pairs(files@), file_view()),
                n == files@.len(),
                reversed@.len() <= n,
                forall|i: int|
                    0 <= i < reversed@.len() ==> #[trigger] reversed@[i] == files@[n - 1 - i],
                keyed::mapped(keyed::pairs(sorted@), file_view()) == json::collected(
                    given.take(n - reversed@.len()),
                ),
                keyed::increasing(keyed::mapped(keyed::pairs(sorted@), file_view())),
            decreases reversed@.len(),
        {
            let ghost k = n - reversed@.len();
            let ghost before = keyed::pairs(sorted@);
            assert(given.take(k + 1).drop_last() =~= given.take(k));
            let last = reversed.pop();
            if let Some((name, content)) = last {
                assert(given.take(k + 1).last() == (name@, file_view()(content)));
                proof {
                    keyed::lemma_mapped_put(before, file_view(), name@, content);
                    keyed::lemma_put(
                        keyed::mapped(before, file_view()),
                        name@,
                        file_view()(content),
                    );
                }
                keyed::put_under(&mut sorted, name.as_str(), content);
            }
        }
        assert(given.take(n as int) =~= given);
        MemoryState { files: sorted, absent, changes: Vec::new() }
    }

    /// The changes that are to be made; they are taken as made from here on.
    pub fn take_changes(&mut self) -> (r: Vec<Change>)
        ensures
            change_views(r@) == old(self)@.changes,
            final(self)@ == (MemoryView { changes: Seq::empty(), ..old(self)@ }),
    {
        let mut out: Vec<Change> = Vec::new();
        std::mem::swap(&mut out, &mut self.changes);
        assert(self@.changes =~= Seq::<ChangeView>::empty());
        out
    }

    /// The file under a name.
    fn file<'a>(&'a self, name: &str) -> (r: Option<&'a FileText>)
        ensures
            match r {
                Some(f) => keyed::lookup(self@.files, name@) == Some(file_view()(*f)),
                None => keyed::lookup(self@.files, name@) is None,
            },
    {
        proof {
            keyed::lemma_mapped(keyed::pairs(self.files@), file_view(), name@);
        }
        keyed::value_under(&self.files, name)
    }

    /// Makes a change.
    fn write(&mut self, name: &str, content: String)
        requires
            old(self).wf(),
        ensures
            final(self).wf(),
            final(self)@ == after(
                old(self)@,
                ChangeView::Write { name: name@, content: content@ },
            ),
    {
        let ghost before = keyed::pairs(self.files@);
        let kept = content.clone();
        let file = FileText::Readable(content);
        proof {
            keyed::lemma_mapped_put(before, file_view(), name@, file);
            keyed::lemma_put(self@.files, name@, Ok(content@));
        }
        keyed::put_under(&mut self.files, name, file);
        self.changes.push(Change::Write { name: name.to_owned(), content: kept });
        assert(self@ =~= after(
            old(self)@,
            ChangeView::Write { name: name@, content: content@ },
        ));
    }

    /// Makes an empty file where there is none.
    fn create(&mut self, name: &str)
        requires
            old(self).wf(),
        ensures
            final(self).wf(),
            final(self)@ == with_file(old(self)@, name@),
    {
        if self.file(name).is_none() {
            let ghost before = keyed::pairs(self.files@);
            let empty = String::new();
            let file = FileText::Readable(empty);
            proof {
                keyed::lemma_mapped_put(before, file_view(), name@, file);
                keyed::lemma_put(self@.files, name@, Ok(Seq::<char>::empty()));
                assert(empty@ =~= Seq::<char>::empty());
            }
            keyed::put_under(&mut self.files, name, file);
            self.changes.push(Change::Create { name: name.to_owned() });
            assert(self@ =~= after(old(self)@, ChangeView::Create { name: name@ }));
        }
    }

    /// Makes the files that the directory always has.
    pub fn ensure(&mut self) -> (r: Result<(), String>)
        requires
            old(self).wf(),
        ensures
            final(self).wf(),
            (final(self)@, unit_view(r)) == ensured(old(self)@),
    {
        self.create("preferences.md");
        self.create("identity.md");
        self.create("goals.md");
        self.create("notes.md");
        if self.file("index.md").is_none() {
            self.regenerate_index()
        } else {
            Ok(())
        }
    }

    /// The directory with the given files and those that it always has.
    pub fn load(files: Vec<(String, FileText)>, absent: String) -> (r: Result<Self, String>)
        ensures
            ({
                let m = MemoryView {
                    files: json::collected(keyed::mapped(keyed::pairs(files@), file_view())),
                    absent: absent@,
                    changes: Seq::empty(),
                };
                match r {
                    Ok(state) => state.wf() && ensured(m) == (
                        state@,
                        Ok::<(), Seq<char>>(()),
                    ),
                    Err(e) => ensured(m).1 == Err::<(), Seq<char>>(e@),
                }
            }),
    {
        let mut state = MemoryState::at(files, absent);
        assert(state@.changes =~= Seq::<ChangeView>::empty());
        match state.ensure() {
            Ok(_) => Ok(state),
            Err(e) => Err(e),
        }
    }

    /// The entries of a file.
    pub fn read_entries(&self, name: &str) -> (r: Result<Vec<MemoryEntry>, String>)
        ensures
            match r {
                Ok(es) => entries_at(self@.files, name@) == Ok::<Seq<EntryView>, Seq<char>>(
                    entries::views(es@),
                ),
                Err(e) => entries_at(self@.files, name@) == Err::<Seq<EntryView>, Seq<char>>(e@),
            },
    {
        match self.file(name) {
            Some(FileText::Readable(content)) => Ok(entries::parse_entries(content.as_str())),
            Some(FileText::Unreadable(e)) => Err(unread(name, e.as_str())),
            None => {
                let none: Vec<MemoryEntry> = Vec::new();
                assert(entries::views(none@) =~= Seq::<EntryView>::empty());
                Ok(none)
            },
        }
    }

    /// The files that are listed in the index.
    fn indexable_files(&self) -> (r: Vec<String>)
        ensures
            text::texts(r@) == indexable(self@.files),
    {
        let ghost files = self@.files;
        let mut out: Vec<String> = vec![
            "preferences.md".to_owned(),
            "identity.md".to_owned(),
            "goals.md".to_owned(),
            "notes.md".to_owned(),
        ];
        let mut i: usize = 0;
        assert(files.take(0) =~= Seq::<(Seq<char>, Result<Seq<char>, Seq<char>>)>::empty());
        assert(text::texts(out@) =~= canonical_names() + extra_names(files.take(0)));
        while i < self.files.len()
            invariant
                i <= self.files@.len(),
                files == self@.files,
                text::texts(out@) == canonical_names() + extra_names(files.take(i as int)),
            decreases self.files@.len() - i,
        {
            let name = self.files[i].0.as_str();
            assert(files.take(i + 1).drop_last() =~= files.take(i as int));
            assert(files.take(i + 1).last().0 == name@);
            if text::ends_with(name, ".md") && !text::same(name, "index.md") && !is_canonical(
                name,
            ) {
                let ghost before = out@;
                let copy = name.to_owned();
                proof {
                    text::lemma_texts_push(before, copy);
                }
                out.push(copy);
                assert(text::texts(out@) =~= canonical_names() + extra_names(files.take(i + 1)));
            }
            i += 1;
        }
        assert(files.take(i as int) =~= files);
        out
    }

    /// Writes `index.md` anew from the titles and summaries of all entries.
    fn regenerate_index(&mut self) -> (r: Result<(), String>)
        requires
            old(self).wf(),
        ensures
            final(self).wf(),
            (final(self)@, unit_view(r)) == reindexed(old(self)@),
    {
        let names = self.indexable_files();
        let ghost files = self@.files;
        let ghost t = text::texts(names@);
        let mut sections = String::new();
        let mut i: usize = 0;
        assert(t.take(0) =~= Seq::<Seq<char>>::empty());
        assert(t.take(names@.len() as int) =~= t);
        assert(sections@ =~= Seq::<char>::empty());
        while i < names.len()
            invariant
                i <= names@.len(),
                *self == *old(self),
                self.wf(),
                files == self@.files,
                t == text::texts(names@),
                t == indexable(files),
                t.take(names@.len() as int) == t,
                index_sections(files, t.take(i as int)) == Ok::<Seq<char>, Seq<char>>(sections@),
            decreases names@.len() - i,
        {
            let name = names[i].as_str();
            assert(t.take(i + 1).drop_last() =~= t.take(i as int));
            assert(t.take(i + 1).last() == name@);
            match self.read_entries(name) {
                Ok(es) => {
                    sections.append(write_section(name, &es).as_str());
                },
                Err(e) => {
                    proof {
                        lemma_sections_fail(files, t, i + 1);
                    }
                    return Err(e);
                },
            }
            i += 1;
        }
        let mut out = "# Memory index\n".to_owned();
        if sections.as_str().is_empty() {
            out.append("\n_No memories saved yet._\n");
        } else {
            out.append(sections.as_str());
        }
        self.write("index.md", out);
        Ok(())
    }

    /// The text of the file that a path names.
    pub fn read_file(&self, path: &str) -> (r: Result<String, String>)
        ensures
            text_view(r) == file_text(self@, path@),
    {
        match naming::normalize_name(path) {
            Ok(name) => match self.file(name.as_str()) {
                Some(FileText::Readable(content)) => Ok(content.clone()),
                Some(FileText::Unreadable(e)) => Err(unread(name.as_str(), e.as_str())),
                None => Err(unread(name.as_str(), self.absent.as_str())),
            },
            Err(e) => Err(e),
        }
    }

    /// What is told the model of its memory in every prompt.
    pub fn context_block(&self) -> (r: String)
        ensures
            r@ == context_of(self@),
    {
        match self.read_file("index.md") {
            Ok(index) => {
                let mut out = "## Long-term memory\nYou have a long-term memory kept as Markdown files. The index below lists saved entries with one-line summaries.\n- Use `read_memory(path)` to read a file's full contents on demand.\n- Use `save_memory(content, path, category, importance)` to store a stable, user-specific fact. Pass `path` to write to a specific file (created if missing), or omit it and let `category` (preference | identity | goal | note) pick the file. importance is 0-5. Only save durable facts, not transient chat context.\n\n".to_owned();
                out.append(text::trim(index.as_str()).as_str());
                out
            },
            Err(_) => String::new(),
        }
    }

    /// What the file that a path names says: the bodies of its entries.
    pub fn read_body(&self, path: &str) -> (r: Result<String, String>)
        ensures
            text_view(r) == body_at(self@, path@),
    {
        let name = match naming::normalize_name(path) {
            Ok(name) => name,
            Err(e) => {
                return Err(e);
            },
        };
        match self.read_file(name.as_str()) {
            Ok(raw) => Ok(read_bodies(raw.as_str())),
            Err(e) => Err(e),
        }
    }

    /// All memory files, for the user to see.
    pub fn list_files(&mut self) -> (r: Result<Vec<MemoryFile>, String>)
        requires
            old(self).wf(),
        ensures
            final(self).wf(),
            final(self)@ == ensured(old(self)@).0,
            match r {
                Ok(v) => ensured(old(self)@).1 is Ok && listing_views(v@) == listing(
                    final(self)@.files,
                ),
                Err(e) => ensured(old(self)@).1 == Err::<(), Seq<char>>(e@),
            },
    {
        match self.ensure() {
            Ok(_) => {},
            Err(e) => {
                return Err(e);
            },
        }
        let ghost files = self@.files;
        let mut out: Vec<MemoryFile> = Vec::new();
        let mut i: usize = 0;
        assert(files.take(0) =~= Seq::<(Seq<char>, Result<Seq<char>, Seq<char>>)>::empty());
        assert(listing_views(out@) =~= listing(files.take(0)));
        while i < self.files.len()
            invariant
                i <= self.files@.len(),
                files == self@.files,
                listing_views(out@) == listing(files.take(i as int)),
            decreases self.files@.len() - i,
        {
            let name = self.files[i].0.as_str();
            assert(files.take(i + 1).drop_last() =~= files.take(i as int));
            assert(files.take(i + 1).last() == files[i as int]);
            assert(files[i as int] == (name@, file_view()(self.files@[i as int].1)));
            if text::ends_with(name, ".md") {
                let content = match &self.files[i].1 {
                    FileText::Readable(s) => s.clone(),
                    FileText::Unreadable(_) => String::new(),
                };
                let ghost before = listing_views(out@);
                let f = MemoryFile {
                    name: name.to_owned(),
                    content,
                    generated: text::same(name, "index.md"),
                };
                out.push(f);
                assert(listing_views(out@) =~= before.push(f@));
                assert(listing(files.take(i + 1)) =~= before.push(f@));
            }
            i += 1;
        }
        assert(files.take(i as int) =~= files);
        Ok(out)
    }

    /// Saves a fact on a given day; gives the file and the entry in which it is kept.
    pub fn save_entry_on(
        &mut self,
        content: &str,
        path: Option<&str>,
        category: Option<&str>,
        importance: i64,
        source_conversation: &str,
        today: &str,
    ) -> (r: Result<(String, MemoryEntry), String>)
        requires
            old(self).wf(),
        ensures
            final(self).wf(),
            (final(self)@, saved_view(r)) == saved(
                old(self)@,
                content@,
                text::opt_str(path),
                text::opt_str(category),
                importance,
                source_conversation@,
                today@,
            ),
    {
        match self.ensure() {
            Ok(_) => {},
            Err(e) => {
                return Err(e);
            },
        }
        let fact = text::trim(content);
        if fact.as_str().is_empty() {
            return Err("save_memory: 'content' is empty".to_owned());
        }
        let (file, kept_as) = match choose_destination(path, category) {
            Ok(d) => d,
            Err(e) => {
                return Err(e);
            },
        };
        let mut all = match self.read_entries(file.as_str()) {
            Ok(es) => es,
            Err(e) => {
                return Err(e);
            },
        };
        let ghost es = entries::views(all@);
        let title = naming::derive_title(fact.as_str());
        let existing = find_title(&all, title.as_str());
        proof {
            lemma_title_index(es, title@);
        }
        let (kept_title, created) = match existing {
            Some(i) => (all[i].title.clone(), all[i].created.clone()),
            None => (title, today.to_owned()),
        };
        let entry = MemoryEntry {
            title: kept_title,
            category: kept_as,
            importance: clamp(importance),
            created,
            source_conversation: Some(source_conversation.to_owned()),
            summary: naming::derive_summary(fact.as_str()),
            body: fact,
        };
        assert(entry@ =~= entry_for(
            es,
            fact@,
            kept_as@,
            importance,
            source_conversation@,
            today@,
        ));
        let copy = entries::copy_entry(&entry);
        match existing {
            Some(i) => {
                all.set(i, copy);
            },
            None => {
                all.push(copy);
            },
        }
        assert(entries::views(all@) =~= merged(es, title@, entry@));
        self.write(file.as_str(), entries::serialize_entries(&all));
        match self.regenerate_index() {
            Ok(_) => Ok((file, entry)),
            Err(e) => Err(e),
        }
    }

    /// Saves a fact today.
    pub fn save_entry(
        &mut self,
        content: &str,
        path: Option<&str>,
        category: Option<&str>,
        importance: i64,
        source_conversation: &str,
    ) -> (r: Result<(String, MemoryEntry), String>)
        requires
            old(self).wf(),
        ensures
            final(self).wf(),
            exists|today: Seq<char>, secs: u64| #[trigger]
                clock::is_day_of(today, secs) && (final(self)@, saved_view(r)) == saved(
                    old(self)@,
                    content@,
                    text::opt_str(path),
                    text::opt_str(category),
                    importance,
                    source_conversation@,
                    today,
                ),
    {
        let today = clock::today_utc();
        self.save_entry_on(
            content,
            path,
            category,
            importance,
            source_conversation,
            today.as_str(),
        )
    }

    /// Replaces the text of a file that the user edited.
    pub fn write_file(&mut self, name: &str, content: &str) -> (r: Result<(), String>)
        requires
            old(self).wf(),
        ensures
            final(self).wf(),
            (final(self)@, unit_view(r)) == edited(old(self)@, name@, content@),
    {
        let name = match naming::normalize_name(name) {
            Ok(name) => name,
            Err(e) => {
                return Err(e);
            },
        };
        if text::same(name.as_str(), "index.md") {
            return Err("index.md is generated automatically and cannot be edited".to_owned());
        }
        self.write(name.as_str(), content.to_owned());
        self.regenerate_index()
    }

    /// Deletes a file.
    pub fn delete_file(&mut self, name: &str) -> (r: Result<(), String>)
        requires
            old(self).wf(),
        ensures
            final(self).wf(),
            (final(self)@, unit_view(r)) == deleted(old(self)@, name@),
    {
        let name = match naming::normalize_name(name) {
            Ok(name) => name,
            Err(e) => {
                return Err(e);
            },
        };
        if text::same(name.as_str(), "index.md") {
            return Err("index.md is generated automatically and cannot be deleted".to_owned());
        }
        if self.file(name.as_str()).is_some() {
            let ghost before = keyed::pairs(self.files@);
            proof {
                keyed::lemma_mapped_without(before, file_view(), name@);
                keyed::lemma_without(self@.files, name@);
            }
            let _ = keyed::remove_under(&mut self.files, name.as_str());
            self.changes.push(Change::Delete { name: name.clone() });
            assert(self@ =~= after(old(self)@, ChangeView::Delete { name: name@ }));
        }
        self.regenerate_index()
    }
}

/// What saving a fact gave, by what it holds.
pub open spec fn saved_view(r: Result<(String, MemoryEntry), String>) -> Result<
    (Seq<char>, EntryView),
    Seq<char>,
> {
    match r {
        Ok((file, entry)) => Ok((file@, entry@)),
        Err(e) => Err(e@),
    }
}

/// What is told of a file that cannot be read.
fn unread(name: &str, error: &str) -> (r: String)
    ensures
        r@ == "read "@ + name@ + ": "@ + error@,
{
    let mut message = "read ".to_owned();
    message.append(name);
    message.append(": ");
    message.append(error);
    message
}

/// Whether a file is that of a category.
fn is_canonical(name: &str) -> (r: bool)
    ensures
        r == canonical_names().contains(name@),
{
    proof {
        let c = canonical_names();
        assert(c[0] == "preferences.md"@ && c[1] == "identity.md"@ && c[2] == "goals.md"@ && c[3]
            == "notes.md"@);
    }
    text::same(name, "preferences.md") || text::same(name, "identity.md") || text::same(
        name,
        "goals.md",
    ) || text::same(name, "notes.md")
}

/// The section of a file in the index.
fn write_section(name: &str, es: &Vec<MemoryEntry>) -> (r: String)
    ensures
        r@ == index_section(name@, entries::views(es@)),
{
    let ghost v = entries::views(es@);
    if es.len() == 0 {
        return String::new();
    }
    let mut out = "\n## ".to_owned();
    out.append(name);
    out.append("\n");
    let ghost head = out@;
    let mut i: usize = 0;
    assert(v.take(0) =~= Seq::<EntryView>::empty());
    assert(out@ =~= head + index_lines(v.take(0)));
    while i < es.len()
        invariant
            i <= es@.len(),
            v == entries::views(es@),
            out@ == head + index_lines(v.take(i as int)),
        decreases es@.len() - i,
    {
        let e = &es[i];
        assert(v.take(i + 1).drop_last() =~= v.take(i as int));
        assert(v.take(i + 1).last() == e@);
        let mut line = "- ".to_owned();
        line.append(e.title.as_str());
        if !e.summary.as_str().is_empty() {
            line.append(" — ");
            line.append(e.summary.as_str());
        }
        line.append("\n");
        out.append(line.as_str());
        i += 1;
        assert(out@ =~= head + index_lines(v.take(i as int)));
    }
    assert(v.take(i as int) =~= v);
    out
}

/// Where one of the files cannot be read there is no index.
proof fn lemma_sections_fail(files: Files, names: Seq<Seq<char>>, i: int)
    requires
        0 <= i <= names.len(),
        index_sections(files, names.take(i)) is Err,
    ensures
        index_sections(files, names) == index_sections(files, names.take(i)),
    decreases names.len() - i,
{
    if i < names.len() {
        assert(names.take(i + 1).drop_last() =~= names.take(i));
        lemma_sections_fail(files, names, i + 1);
    } else {
        assert(names.take(i) =~= names);
    }
}

/// The bodies of the entries in a file.
fn read_bodies(raw: &str) -> (r: String)
    ensures
        r@ == body_text(raw@),
{
    let es = entries::parse_entries(raw);
    let ghost v = entries::views(es@);
    if es.len() == 0 {
        return text::trim(raw);
    }
    let mut out: Vec<String> = Vec::new();
    let mut i: usize = 0;
    assert(v.take(0) =~= Seq::<EntryView>::empty());
    assert(text::texts(out@) =~= bodies(v.take(0)));
    while i < es.len()
        invariant
            i <= es@.len(),
            v == entries::views(es@),
            text::texts(out@) == bodies(v.take(i as int)),
        decreases es@.len() - i,
    {
        assert(v.take(i + 1).drop_last() =~= v.take(i as int));
        assert(v.take(i + 1).last() == es@[i as int]@);
        if !text::is_blank(es[i].body.as_str()) {
            let body = text::trim(es[i].body.as_str());
            proof {
                text::lemma_texts_push(out@, body);
            }
            out.push(body);
        }
        i += 1;
    }
    assert(v.take(i as int) =~= v);
    text::join(&out, "\n\n---\n\n")
}

/// An argument that was given and is not blank.
fn take_given(s: Option<&str>) -> (r: Option<String>)
    ensures
        text::opt_text(r) == given(text::opt_str(s)),
{
    match s {
        Some(t) => if text::is_blank(t) {
            None
        } else {
            Some(text::trim(t))
        },
        None => None,
    }
}

/// The file into which a fact goes and the category under which it is kept.
fn choose_destination(path: Option<&str>, category: Option<&str>) -> (r: Result<
    (String, String),
    String,
>)
    ensures
        match r {
            Ok((file, kept_as)) => destination(text::opt_str(path), text::opt_str(category)) == Ok::<
                (Seq<char>, Seq<char>),
                Seq<char>,
            >((file@, kept_as@)),
            Err(e) => destination(text::opt_str(path), text::opt_str(category)) == Err::<
                (Seq<char>, Seq<char>),
                Seq<char>,
            >(e@),
        },
{
    let category = match take_given(category) {
        Some(c) => Some(text::to_lower(c.as_str())),
        None => None,
    };
    match take_given(path) {
        Some(p) => match naming::normalize_name(p.as_str()) {
            Ok(file) => {
                if text::same(file.as_str(), "index.md") {
                    return Err(
                        "index.md is generated automatically and cannot be edited".to_owned(),
                    );
                }
                let kept_as = match category {
                    Some(c) => c,
                    None => infer_category(file.as_str()),
                };
                Ok((file, kept_as))
            },
            Err(e) => Err(e),
        },
        None => match category {
            Some(c) => match canonical_file(c.as_str()) {
                Some(file) => Ok((file, c)),
                None => {
                    let mut message = "save_memory: unknown category '".to_owned();
                    message.append(c.as_str());
                    message.append("' (use preference, identity, goal, or note)");
                    Err(message)
                },
            },
            None => Err("save_memory: provide either 'path' or 'category'".to_owned()),
        },
    }
}

/// An importance brought into its range.
fn clamp(importance: i64) -> (r: u8)
    ensures
        r == clamped(importance),
{
    if importance < 0 {
        0
    } else if importance > 5 {
        5
    } else {
        importance as u8
    }
}

/// What `title_index` returns.
proof fn lemma_title_index(es: Seq<EntryView>, title: Seq<char>)
    ensures
        match title_index(es, title) {
            Some(i) => 0 <= i < es.len() && text::lower(es[i].title) == text::lower(title)
                && forall|j: int|
                0 <= j < i ==> text::lower((#[trigger] es[j]).title) != text::lower(title),
            None => forall|j: int|
                0 <= j < es.len() ==> text::lower((#[trigger] es[j]).title) != text::lower(title),
        },
    decreases es.len(),
{
    if es.len() > 0 && text::lower(es[0].title) != text::lower(title) {
        let t = es.drop_first();
        lemma_title_index(t, title);
        match title_index(t, title) {
            Some(i) => {
                assert(t[i] == es[i + 1]);
                assert forall|j: int| 0 <= j < i + 1 implies text::lower((#[trigger] es[j]).title)
                    != text::lower(title) by {
                    if j > 0 {
                        assert(t[j - 1] == es[j]);
                    }
                }
            },
            None => {
                assert forall|j: int| 0 <= j < es.len() implies text::lower(
                    (#[trigger] es[j]).title,
                ) != text::lower(title) by {
                    if j > 0 {
                        assert(t[j - 1] == es[j]);
                    }
                }
            },
        }
    }
}

/// The index of the first entry with a title.
fn find_title(es: &Vec<MemoryEntry>, title: &str) -> (r: Option<usize>)
    ensures
        match r {
            Some(i) => title_index(entries::views(es@), title@) == Some(i as int) && i < es@.len(),
            None => title_index(entries::views(es@), title@) is None,
        },
{
    let ghost v = entries::views(es@);
    let small = text::to_lower(title);
    let mut i: usize = 0;
    while i < es.len()
        invariant
            i <= es@.len(),
            v == entries::views(es@),
            small@ == text::lower(title@),
            forall|j: int|
                0 <= j < i ==> text::lower((#[trigger] v[j]).title) != text::lower(title@),
        decreases es@.len() - i,
    {
        assert(v[i as int] == es@[i as int]@);
        if text::same(text::to_lower(es[i].title.as_str()).as_str(), small.as_str()) {
            proof {
                lemma_title_index(v, title@);
                let k = title_index(v, title@);
                if k is Some && k->0 < i {
                    assert(text::lower(v[k->0].title) != text::lower(title@));
                }
            }
            return Some(i);
        }
        i += 1;
    }
    proof {
        lemma_title_index(v, title@);
    }
    None
}

// ---------------------------------------------------------------------------
// The model's calls
// ---------------------------------------------------------------------------

/// The importance that a call gives: 3 where it gives none.
pub open spec fn importance_of(call: CallView) -> i64 {
    match json::member(call.arguments, "importance"@) {
        Some(v) => match json::number_as_int(v) {
            Some(i) => i,
            None => 3,
        },
        None => 3,
    }
}

/// What is told of a fact that was saved.
pub open spec fn saved_text(file: Seq<char>, entry: EntryView) -> Seq<char> {
    "Saved to "@ + file + " (importance "@ + digits::decimal(entry.importance as nat) + "): "@
        + entry.title
}

/// The directory after a call of one of the memory tools, and what the call is answered.
/// An error is told the model, so that it can correct itself.
pub open spec fn executed(
    m: MemoryView,
    call: CallView,
    source: Seq<char>,
    today: Seq<char>,
) -> (MemoryView, OutputView) {
    let path = json::member_text(call.arguments, "path"@);
    if call.name == "save_memory"@ {
        match json::member_text(call.arguments, "content"@) {
            Some(content) => {
                let (n, r) = saved(
                    m,
                    content,
                    path,
                    json::member_text(call.arguments, "category"@),
                    importance_of(call),
                    source,
                    today,
                );
                (
                    n,
                    match r {
                        Ok((file, entry)) => tools::fine(saved_text(file, entry)),
                        Err(e) => tools::failed(e),
                    },
                )
            },
            None => (m, tools::failed("save_memory: missing 'content' argument"@)),
        }
    } else if call.name == "read_memory"@ {
        (
            m,
            match path {
                Some(p) => match body_at(m, p) {
                    Ok(s) => if s.len() == 0 {
                        tools::fine(p + " is empty."@)
                    } else {
                        tools::fine(s)
                    },
                    Err(e) => tools::failed(e),
                },
                None => tools::failed("read_memory: missing 'path' argument"@),
            },
        )
    } else {
        (m, tools::failed("unknown memory tool: "@ + call.name))
    }
}

/// Answers a call of one of the memory tools on a given day.
pub fn execute_tool_on(
    call: &ToolCall,
    source: &str,
    memory: &mut MemoryState,
    today: &str,
) -> (r: ToolOutput)
    requires
        old(memory).wf(),
    ensures
        final(memory).wf(),
        (final(memory)@, r@) == executed(old(memory)@, call@, source@, today@),
{
    let name = call.name.as_str();
    if text::same(name, "save_memory") {
        let path = call.arguments.get_str("path");
        let category = call.arguments.get_str("category");
        let importance: i64 = match call.arguments.get("importance") {
            Some(v) => match json::int_of(v) {
                Some(i) => i,
                None => 3,
            },
            None => 3,
        };
        match call.arguments.get_str("content") {
            Some(content) => match memory.save_entry_on(
                content,
                path,
                category,
                importance,
                source,
                today,
            ) {
                Ok((file, entry)) => {
                    let mut message = "Saved to ".to_owned();
                    message.append(file.as_str());
                    message.append(" (importance ");
                    message.append(digits::decimal_text(entry.importance as u64).as_str());
                    message.append("): ");
                    message.append(entry.title.as_str());
                    ToolOutput::ok(message)
                },
                Err(e) => ToolOutput::err(e),
            },
            None => ToolOutput::err("save_memory: missing 'content' argument".to_owned()),
        }
    } else if text::same(name, "read_memory") {
        match call.arguments.get_str("path") {
            Some(path) => match memory.read_body(path) {
                Ok(body) => if body.as_str().is_empty() {
                    let mut message = path.to_owned();
                    message.append(" is empty.");
                    ToolOutput::ok(message)
                } else {
                    ToolOutput::ok(body)
                },
                Err(e) => ToolOutput::err(e),
            },
            None => ToolOutput::err("read_memory: missing 'path' argument".to_owned()),
        }
    } else {
        let mut message = "unknown memory tool: ".to_owned();
        message.append(name);
        ToolOutput::err(message)
    }
}

/// Answers a call of one of the memory tools today.
pub fn execute_tool(call: &ToolCall, source: &str, memory: &mut MemoryState) -> (r: ToolOutput)
    requires
        old(memory).wf(),
    ensures
        final(memory).wf(),
        exists|today: Seq<char>, secs: u64| #[trigger]
            clock::is_day_of(today, secs) && (final(memory)@, r@) == executed(
                old(memory)@,
                call@,
                source@,
                today,
            ),
{
    let today = clock::today_utc();
    execute_tool_on(call, source, memory, today.as_str())
}

// ---------------------------------------------------------------------------
// Laws
// ---------------------------------------------------------------------------

/// The names of two lists of files, one after the other.
proof fn lemma_extra_names(a: Files, b: Files)
    ensures
        extra_names(a + b) == extra_names(a) + extra_names(b),
    decreases b.len(),
{
    if b.len() == 0 {
        assert(a + b =~= a);
        assert(extra_names(a) + extra_names(b) =~= extra_names(a));
    } else {
        assert((a + b).drop_last() =~= a + b.drop_last());
        assert((a + b).last() == b.last());
        lemma_extra_names(a, b.drop_last());
        assert(extra_names(a + b) =~= extra_names(a) + extra_names(b));
    }
}

/// The index alone gives no name.
proof fn lemma_index_alone(file: (Seq<char>, Result<Seq<char>, Seq<char>>))
    requires
        file.0 == index_name(),
    ensures
        extra_names(seq![file]) == Seq::<Seq<char>>::empty(),
{
    let one = seq![file];
    assert(one.drop_last() =~= Seq::<(Seq<char>, Result<Seq<char>, Seq<char>>)>::empty());
    assert(extra_names(one.drop_last()) =~= Seq::<Seq<char>>::empty());
    assert(one.last() == file);
}

/// The index among other files gives no name.
proof fn lemma_index_between(
    a: Files,
    file: (Seq<char>, Result<Seq<char>, Seq<char>>),
    b: Files,
)
    requires
        file.0 == index_name(),
    ensures
        extra_names(a + seq![file] + b) == extra_names(a) + extra_names(b),
{
    lemma_index_alone(file);
    lemma_extra_names(a + seq![file], b);
    lemma_extra_names(a, seq![file]);
    assert(extra_names(a) + Seq::<Seq<char>>::empty() =~= extra_names(a));
}

/// Writing the index leaves the list of files as it is.
proof fn lemma_index_not_listed(files: Files, content: Result<Seq<char>, Seq<char>>)
    ensures
        extra_names(keyed::put(files, index_name(), content)) == extra_names(files),
{
    let p = keyed::place(files, index_name()) as int;
    let added = (index_name(), content);
    keyed::lemma_place(files, index_name());
    let a = files.take(p);
    if p < files.len() && files[p].0 == index_name() {
        let b = files.skip(p + 1);
        assert(keyed::put(files, index_name(), content) =~= a + seq![added] + b);
        assert(files =~= a + seq![files[p]] + b);
        lemma_index_between(a, added, b);
        lemma_index_between(a, files[p], b);
    } else {
        let b = files.skip(p);
        assert(keyed::put(files, index_name(), content) =~= a + seq![added] + b);
        assert(files =~= a + b);
        lemma_index_between(a, added, b);
        lemma_extra_names(a, b);
    }
}

/// The list of files does not hold the index.
proof fn lemma_listed(files: Files)
    ensures
        !indexable(files).contains(index_name()),
    decreases files.len(),
{
    lemma_names_differ();
    if files.len() > 0 {
        lemma_listed(files.drop_last());
        let before = indexable(files.drop_last());
        let names = indexable(files);
        assert forall|i: int| 0 <= i < names.len() implies names[i] != index_name() by {
            if i < before.len() {
                assert(names[i] == before[i]);
                assert(before.contains(before[i]));
            }
        }
    } else {
        let names = indexable(files);
        assert(names =~= canonical_names());
        assert forall|i: int| 0 <= i < names.len() implies names[i] != index_name() by {
            assert(names[i] == canonical_names()[i]);
        }
    }
}

/// The index is not the file of a category.
proof fn lemma_names_differ()
    ensures
        forall|i: int| 0 <= i < 4 ==> #[trigger] canonical_names()[i] != index_name(),
{
    reveal_strlit("index.md");
    reveal_strlit("preferences.md");
    reveal_strlit("identity.md");
    reveal_strlit("goals.md");
    reveal_strlit("notes.md");
    assert("index.md"@.len() == 8 && "preferences.md"@.len() == 14 && "identity.md"@.len() == 11);
    assert("index.md"@[0] == 'i' && "goals.md"@[0] == 'g' && "notes.md"@[0] == 'n');
}

/// Where two directories agree on files, so do their sections in the index.
proof fn lemma_same_sections(a: Files, b: Files, names: Seq<Seq<char>>)
    requires
        forall|i: int|
            0 <= i < names.len() ==> keyed::lookup(a, #[trigger] names[i]) == keyed::lookup(
                b,
                names[i],
            ),
    ensures
        index_sections(a, names) == index_sections(b, names),
    decreases names.len(),
{
    if names.len() > 0 {
        let front = names.drop_last();
        assert forall|i: int| 0 <= i < front.len() implies keyed::lookup(a, #[trigger] front[i])
            == keyed::lookup(b, front[i]) by {
            assert(front[i] == names[i]);
        }
        lemma_same_sections(a, b, front);
        assert(names.last() == names[names.len() - 1]);
    }
}

/// Whether `index.md` lists what is in the other files.
pub open spec fn index_is_fresh(files: Files) -> bool {
    index_text(files) is Ok && keyed::lookup(files, index_name()) == Some(index_text(files))
}

/// An index that was just written lists what is in the other files.
proof fn lemma_reindexed(m: MemoryView)
    requires
        keyed::increasing(m.files),
        reindexed(m).1 is Ok,
    ensures
        keyed::increasing(reindexed(m).0.files),
        index_is_fresh(reindexed(m).0.files),
        forall|name: Seq<char>|
            name != index_name() ==> #[trigger] keyed::lookup(reindexed(m).0.files, name)
                == keyed::lookup(m.files, name),
{
    let content = index_text(m.files);
    let files = reindexed(m).0.files;
    keyed::lemma_put(m.files, index_name(), content);
    lemma_index_not_listed(m.files, content);
    lemma_listed(m.files);
    let names = indexable(m.files);
    assert forall|i: int| 0 <= i < names.len() implies keyed::lookup(files, #[trigger] names[i])
        == keyed::lookup(m.files, names[i]) by {
        assert(names.contains(names[i]));
    }
    lemma_same_sections(files, m.files, names);
}

/// After the user edited a file, the file holds what they wrote and the index lists what
/// is in the files.
pub proof fn law_edit_refreshes_index(m: MemoryView, path: Seq<char>, content: Seq<char>)
    requires
        keyed::increasing(m.files),
        edited(m, path, content).1 is Ok,
    ensures
        index_is_fresh(edited(m, path, content).0.files),
        naming::normalized(path) matches Ok(name) && keyed::lookup(
            edited(m, path, content).0.files,
            name,
        ) == Some(Ok::<Seq<char>, Seq<char>>(content)),
{
    if let Ok(name) = naming::normalized(path) {
        keyed::lemma_put(m.files, name, Ok(content));
        lemma_reindexed(after(m, ChangeView::Write { name, content }));
    }
}

/// After the user deleted a file, it is gone and the index lists what is in the others.
pub proof fn law_delete_refreshes_index(m: MemoryView, path: Seq<char>)
    requires
        keyed::increasing(m.files),
        deleted(m, path).1 is Ok,
    ensures
        index_is_fresh(deleted(m, path).0.files),
        naming::normalized(path) matches Ok(name) && keyed::lookup(
            deleted(m, path).0.files,
            name,
        ) is None,
{
    if let Ok(name) = naming::normalized(path) {
        keyed::lemma_without(m.files, name);
        if keyed::lookup(m.files, name) is Some {
            lemma_reindexed(after(m, ChangeView::Delete { name }));
        } else {
            lemma_reindexed(m);
        }
    }
}

/// After a fact was saved, the index lists what is in the files, wherever the fact went.
pub proof fn law_save_refreshes_index(
    m: MemoryView,
    content: Seq<char>,
    path: Option<Seq<char>>,
    category: Option<Seq<char>>,
    importance: i64,
    source: Seq<char>,
    today: Seq<char>,
)
    requires
        keyed::increasing(m.files),
        saved(m, content, path, category, importance, source, today).1 is Ok,
    ensures
        index_is_fresh(saved(m, content, path, category, importance, source, today).0.files),
{
    law_load_makes_all_files(m);
    let m1 = ensured(m).0;
    if let Ok((file, kept_as)) = destination(path, category) {
        if let Ok(es) = entries_at(m1.files, file) {
            let fact = text::trimmed(content);
            let entry = entry_for(es, fact, kept_as, importance, source, today);
            let text = entries::serialized(merged(es, naming::title_of(fact), entry));
            keyed::lemma_put(m1.files, file, Ok(text));
            lemma_reindexed(after(m1, ChangeView::Write { name: file, content: text }));
        }
    }
}

/// A name of small letters that ends with `.md` is taken for itself.
proof fn lemma_simple_name(n: Seq<char>)
    requires
        n.len() > 3,
        n[n.len() - 3] == '.',
        n[n.len() - 2] == 'm',
        n[n.len() - 1] == 'd',
        forall|i: int| 0 <= i < n.len() - 3 ==> 'a' <= #[trigger] n[i] && n[i] <= 'z',
    ensures
        naming::normalized(n) == Ok::<Seq<char>, Seq<char>>(n),
{
    reveal_strlit("memory/");
    reveal_strlit("..");
    reveal_strlit(".md");
    text::lemma_trimmed_edges(n);
    if let Some(_) = text::after_prefix(n, "memory/"@) {
        assert(n.subrange(0, 7)[6] == n[6]);
    }
    assert(naming::bare_name(n) == n);
    assert(text::lower(n) =~= n);
    if text::has(n, ".."@) {
        let i = choose|i: int| text::occurs_at(n, ".."@, i);
        assert(n.subrange(i, i + 2)[0] == n[i] && n.subrange(i, i + 2)[1] == n[i + 1]);
    }
    assert(n.subrange(n.len() - 3, n.len() as int) =~= ".md"@);
}

/// The name of the index is taken for itself.
proof fn lemma_index_name()
    ensures
        naming::normalized(index_name()) == Ok::<Seq<char>, Seq<char>>(index_name()),
{
    reveal_strlit("index.md");
    lemma_simple_name("index.md"@);
}

/// The file of a category is taken for itself.
proof fn lemma_category_name(category: Seq<char>)
    ensures
        category_file(category) matches Some(file) ==> naming::normalized(file) == Ok::<
            Seq<char>,
            Seq<char>,
        >(file),
{
    reveal_strlit("preferences.md");
    reveal_strlit("identity.md");
    reveal_strlit("goals.md");
    reveal_strlit("notes.md");
    lemma_simple_name("preferences.md"@);
    lemma_simple_name("identity.md"@);
    lemma_simple_name("goals.md"@);
    lemma_simple_name("notes.md"@);
}

/// What is told the model of its memory in every prompt is the index and nothing else:
/// what stands in the other files makes no difference to it.
pub proof fn law_prompt_holds_the_index_alone(m: MemoryView)
    ensures
        context_of(m) == match keyed::lookup(m.files, index_name()) {
            Some(Ok(index)) => context_intro() + text::trimmed(index),
            _ => Seq::empty(),
        },
{
    lemma_index_name();
}

/// Neither editing nor deleting touches the index itself, and no fact is saved to it: the
/// directory is as it was, but for the files that it always has.
pub proof fn law_index_is_not_edited(
    m: MemoryView,
    path: Seq<char>,
    content: Seq<char>,
    category: Option<Seq<char>>,
    importance: i64,
    source: Seq<char>,
    today: Seq<char>,
)
    requires
        naming::normalized(path) == Ok::<Seq<char>, Seq<char>>(index_name()),
    ensures
        edited(m, path, content).0 == m && edited(m, path, content).1 is Err,
        deleted(m, path).0 == m && deleted(m, path).1 is Err,
        given(Some(path)) is Some,
        saved(m, content, Some(path), category, importance, source, today).0 == ensured(m).0
            && saved(m, content, Some(path), category, importance, source, today).1 is Err,
{
    if text::blank(path) {
        assert(text::trimmed(path) =~= Seq::<char>::empty());
        assert(naming::bare_name(path).len() == 0) by {
            reveal_strlit("memory/");
        }
    }
    text::lemma_trimmed_twice(path);
}

/// A fact never goes to the index.
proof fn lemma_not_to_index(path: Option<Seq<char>>, category: Option<Seq<char>>)
    ensures
        destination(path, category) matches Ok((file, _)) ==> file != index_name(),
{
    lemma_names_differ();
    if let Some(c) = given_category(category) {
        assert(canonical_names()[0] == "preferences.md"@ && canonical_names()[1] == "identity.md"@
            && canonical_names()[2] == "goals.md"@ && canonical_names()[3] == "notes.md"@);
    }
}

/// A file that was there stays as it is, whichever file is made.
proof fn lemma_with_file(m: MemoryView, name: Seq<char>)
    requires
        keyed::increasing(m.files),
    ensures
        keyed::increasing(with_file(m, name).files),
        keyed::lookup(with_file(m, name).files, name) is Some,
        forall|n: Seq<char>|
            keyed::lookup(m.files, n) is Some ==> #[trigger] keyed::lookup(
                with_file(m, name).files,
                n,
            ) == keyed::lookup(m.files, n),
{
    keyed::lemma_put(m.files, name, Ok(Seq::<char>::empty()));
}

/// Making the files of the categories leaves those that were there as they are.
proof fn lemma_with_categories(m: MemoryView)
    requires
        keyed::increasing(m.files),
    ensures
        keyed::increasing(with_categories(m).files),
        forall|i: int|
            0 <= i < 4 ==> keyed::lookup(
                with_categories(m).files,
                #[trigger] canonical_names()[i],
            ) is Some,
        forall|n: Seq<char>|
            keyed::lookup(m.files, n) is Some ==> #[trigger] keyed::lookup(
                with_categories(m).files,
                n,
            ) == keyed::lookup(m.files, n),
{
    let m1 = with_file(m, "preferences.md"@);
    let m2 = with_file(m1, "identity.md"@);
    let m3 = with_file(m2, "goals.md"@);
    let m4 = with_file(m3, "notes.md"@);
    lemma_with_file(m, "preferences.md"@);
    lemma_with_file(m1, "identity.md"@);
    lemma_with_file(m2, "goals.md"@);
    lemma_with_file(m3, "notes.md"@);
    assert(keyed::lookup(m2.files, "preferences.md"@) is Some);
    assert(keyed::lookup(m3.files, "preferences.md"@) is Some);
    assert(keyed::lookup(m3.files, "identity.md"@) is Some);
    assert(keyed::lookup(m4.files, "preferences.md"@) is Some);
    assert(keyed::lookup(m4.files, "identity.md"@) is Some);
    assert(keyed::lookup(m4.files, "goals.md"@) is Some);
    assert forall|n: Seq<char>| keyed::lookup(m.files, n) is Some implies #[trigger] keyed::lookup(
        m4.files,
        n,
    ) == keyed::lookup(m.files, n) by {
        assert(keyed::lookup(m1.files, n) == keyed::lookup(m.files, n));
        assert(keyed::lookup(m2.files, n) == keyed::lookup(m.files, n));
        assert(keyed::lookup(m3.files, n) == keyed::lookup(m.files, n));
    }
}

/// A directory that was loaded has the file of every category and the index, and what
/// was in it before is as it was.
pub proof fn law_load_makes_all_files(m: MemoryView)
    requires
        keyed::increasing(m.files),
        ensured(m).1 is Ok,
    ensures
        keyed::increasing(ensured(m).0.files),
        forall|i: int|
            0 <= i < 4 ==> keyed::lookup(
                ensured(m).0.files,
                #[trigger] canonical_names()[i],
            ) is Some,
        keyed::lookup(ensured(m).0.files, index_name()) is Some,
        forall|n: Seq<char>|
            keyed::lookup(m.files, n) is Some ==> #[trigger] keyed::lookup(ensured(m).0.files, n)
                == keyed::lookup(m.files, n),
{
    let n = with_categories(m);
    lemma_with_categories(m);
    if keyed::lookup(n.files, index_name()) is None {
        lemma_names_differ();
        lemma_reindexed(n);
        keyed::lemma_put(n.files, index_name(), index_text(n.files));
        let files = reindexed(n).0.files;
        assert forall|i: int| 0 <= i < 4 implies keyed::lookup(
            files,
            #[trigger] canonical_names()[i],
        ) is Some by {
            assert(keyed::lookup(files, canonical_names()[i]) == keyed::lookup(
                n.files,
                canonical_names()[i],
            ));
        }
        assert forall|k: Seq<char>| keyed::lookup(m.files, k) is Some implies #[trigger] keyed::lookup(
            files,
            k,
        ) == keyed::lookup(m.files, k) by {
            assert(keyed::lookup(n.files, k) == keyed::lookup(m.files, k));
        }
    }
}

/// A fact that was saved is found in its file: what the file had, with the entry of the
/// fact among it, as it is read again after it was written (see [`entries::reread`]). Every
/// other file is as it was, and the index lists what is in the files. Left out is an entry
/// that cannot be told from those around it, having a line `---` (see
/// [`entries::separable`]).
pub proof fn law_saved_fact_is_found(
    m: MemoryView,
    content: Seq<char>,
    path: Option<Seq<char>>,
    category: Option<Seq<char>>,
    importance: i64,
    source: Seq<char>,
    today: Seq<char>,
    file: Seq<char>,
    entry: EntryView,
    es: Seq<EntryView>,
)
    requires
        keyed::increasing(m.files),
        saved(m, content, path, category, importance, source, today).1 == Ok::<
            (Seq<char>, EntryView),
            Seq<char>,
        >((file, entry)),
        entries_at(ensured(m).0.files, file) == Ok::<Seq<EntryView>, Seq<char>>(es),
        entries::separable(entry),
    ensures
        ({
            let files = saved(m, content, path, category, importance, source, today).0.files;
            let all = merged(es, naming::title_of(text::trimmed(content)), entry);
            let kept = entries::all_reread(all);
            &&& entry.body == text::trimmed(content)
            &&& entry.importance == clamped(importance)
            &&& entry.source_conversation == Some(source)
            &&& all.contains(entry)
            &&& entries_at(files, file) == Ok::<Seq<EntryView>, Seq<char>>(kept)
            &&& kept.contains(entries::reread(entry))
            &&& entries::storable(entry) ==> entries::reread(entry) == entry
            &&& entries::one_line_fields(entry) && entries::plain_body(entry.body)
                ==> entries::reread(entry) == (EntryView {
                category: entries::unquoted(text::trimmed(entry.category)),
                created: entries::unquoted(text::trimmed(entry.created)),
                ..entry
            })
            &&& keyed::increasing(files)
            &&& index_is_fresh(files)
            &&& forall|n: Seq<char>|
                n != file && n != index_name() ==> #[trigger] keyed::lookup(files, n)
                    == keyed::lookup(ensured(m).0.files, n)
        }),
{
    law_load_makes_all_files(m);
    lemma_not_to_index(path, category);
    let m1 = ensured(m).0;
    let title = naming::title_of(text::trimmed(content));
    let all = merged(es, title, entry);
    let body = entries::serialized(all);
    lemma_title_index(es, title);
    if let Some(Ok(text)) = keyed::lookup(m1.files, file) {
        entries::law_read_entries_can_be_written(text);
    }
    assert forall|i: int| 0 <= i < all.len() implies entries::separable(#[trigger] all[i]) by {
        match title_index(es, title) {
            Some(k) => {
                if i != k {
                    assert(all[i] == es[i]);
                }
            },
            None => {
                if i < es.len() {
                    assert(all[i] == es[i]);
                }
            },
        }
    }
    entries::law_written_entries_are_read(all);
    if entries::storable(entry) {
        entries::law_storable_entries_are_kept(entry);
    }
    if entries::one_line_fields(entry) && entries::plain_body(entry.body) {
        entries::law_one_line_fields_are_told_apart(entry);
        entries::law_plain_bodies_are_kept(entry);
    }
    let k = match title_index(es, title) {
        Some(k) => k,
        None => es.len() as int,
    };
    assert(all[k] == entry);
    assert(entries::all_reread(all)[k] == entries::reread(entry));
    keyed::lemma_put(m1.files, file, Ok(body));
    let m2 = after(m1, ChangeView::Write { name: file, content: body });
    lemma_reindexed(m2);
}

/// Where the file format holds what the file had and the new entry as they stand, the file
/// has just those.
pub proof fn law_storable_files_are_kept(es: Seq<EntryView>, title: Seq<char>, entry: EntryView)
    requires
        forall|i: int| 0 <= i < es.len() ==> entries::storable(#[trigger] es[i]),
        entries::storable(entry),
    ensures
        entries::all_reread(merged(es, title, entry)) == merged(es, title, entry),
{
    let all = merged(es, title, entry);
    lemma_title_index(es, title);
    assert forall|i: int| 0 <= i < all.len() implies entries::reread(#[trigger] all[i])
        == all[i] by {
        if all[i] != entry {
            assert(all[i] == es[i]);
        }
        entries::law_storable_entries_are_kept(all[i]);
    }
    assert(entries::all_reread(all) =~= all);
}

/// The lines of entries in the index hold the line of each.
proof fn lemma_index_lines(es: Seq<EntryView>, k: int)
    requires
        0 <= k < es.len(),
    ensures
        text::has(index_lines(es), index_line(es[k])),
    decreases es.len(),
{
    let front = index_lines(es.drop_last());
    let line = index_line(es[k]);
    if k == es.len() - 1 {
        assert(index_lines(es).subrange(front.len() as int, index_lines(es).len() as int) =~= line);
        assert(text::occurs_at(index_lines(es), line, front.len() as int));
    } else {
        lemma_index_lines(es.drop_last(), k);
        lemma_has_around(Seq::empty(), front, index_line(es.last()), line);
        assert(Seq::<char>::empty() + front + index_line(es.last()) =~= index_lines(es));
    }
}

/// What stands in a part of a text stands in the text.
proof fn lemma_has_around(a: Seq<char>, b: Seq<char>, c: Seq<char>, pat: Seq<char>)
    requires
        text::has(b, pat),
    ensures
        text::has(a + b + c, pat),
{
    let i = choose|i: int| text::occurs_at(b, pat, i);
    let k = a.len() + i;
    assert((a + b + c).subrange(k, k + pat.len()) =~= b.subrange(i, i + pat.len()));
    assert(text::occurs_at(a + b + c, pat, k));
}

/// The sections of files hold the section of each.
proof fn lemma_sections(files: Files, names: Seq<Seq<char>>, k: int)
    requires
        0 <= k < names.len(),
        index_sections(files, names) is Ok,
    ensures
        entries_at(files, names[k]) is Ok,
        text::has(
            index_sections(files, names)->Ok_0,
            index_section(names[k], entries_at(files, names[k])->Ok_0),
        ),
    decreases names.len(),
{
    let front = index_sections(files, names.drop_last())->Ok_0;
    let last = index_section(names.last(), entries_at(files, names.last())->Ok_0);
    let all = index_sections(files, names)->Ok_0;
    assert(all == front + last);
    if k == names.len() - 1 {
        assert(all.subrange(front.len() as int, all.len() as int) =~= last);
        assert(text::occurs_at(all, last, front.len() as int));
    } else {
        lemma_sections(files, names.drop_last(), k);
        let section = index_section(names[k], entries_at(files, names[k])->Ok_0);
        lemma_has_around(Seq::empty(), front, last, section);
        assert(Seq::<char>::empty() + front + last =~= all);
    }
}

/// A file beside those of the categories is among those that are listed.
proof fn lemma_extra_is_listed(files: Files, k: int)
    requires
        0 <= k < files.len(),
        is_extra(files[k].0),
    ensures
        extra_names(files).contains(files[k].0),
    decreases files.len(),
{
    let before = extra_names(files.drop_last());
    let all = extra_names(files);
    if k == files.len() - 1 {
        assert(all[all.len() - 1] == files[k].0);
    } else {
        lemma_extra_is_listed(files.drop_last(), k);
        let i = choose|i: int| 0 <= i < before.len() && before[i] == files[k].0;
        assert(all[i] == before[i]);
    }
}

/// An index that lists what is in the files has, for each Markdown file with entries, a
/// section with a line for each entry: its title and its summary.
pub proof fn law_index_lists_every_entry(
    files: Files,
    file: Seq<char>,
    es: Seq<EntryView>,
    index: Seq<char>,
)
    requires
        index_is_fresh(files),
        keyed::lookup(files, index_name()) == Some(Ok::<Seq<char>, Seq<char>>(index)),
        text::ends(file, ".md"@),
        file != index_name(),
        keyed::lookup(files, file) is Some,
        entries_at(files, file) == Ok::<Seq<EntryView>, Seq<char>>(es),
        es.len() > 0,
    ensures
        text::has(index, index_section(file, es)),
        forall|k: int|
            0 <= k < es.len() ==> text::has(
                index_section(file, es),
                index_line(#[trigger] es[k]),
            ),
        forall|k: int| 0 <= k < es.len() ==> text::has(index, index_line(#[trigger] es[k])),
{
    let names = indexable(files);
    let section = index_section(file, es);
    keyed::lemma_key_index(files, file);
    if !canonical_names().contains(file) {
        let k = keyed::key_index(files, file)->0;
        lemma_extra_is_listed(files, k);
        let i = choose|i: int| 0 <= i < extra_names(files).len() && extra_names(files)[i] == file;
        assert(names[canonical_names().len() + i] == file);
    } else {
        let i = choose|i: int| 0 <= i < canonical_names().len() && canonical_names()[i] == file;
        assert(names[i] == file);
    }
    let k = choose|k: int| 0 <= k < names.len() && names[k] == file;
    lemma_sections(files, names, k);
    let sections = index_sections(files, names)->Ok_0;
    let title = "# Memory index\n"@;
    reveal_strlit("\n## ");
    assert(section.len() > 0);
    assert(sections.len() > 0) by {
        let i = choose|i: int| text::occurs_at(sections, section, i);
        assert(text::occurs_at(sections, section, i));
    }
    lemma_has_around(title, sections, Seq::empty(), section);
    assert(title + sections + Seq::<char>::empty() =~= index);
    let heading = "\n## "@ + file + "\n"@;
    assert forall|k: int| 0 <= k < es.len() implies text::has(
        section,
        index_line(#[trigger] es[k]),
    ) && text::has(index, index_line(es[k])) by {
        lemma_index_lines(es, k);
        lemma_has_around(heading, index_lines(es), Seq::empty(), index_line(es[k]));
        assert(heading + index_lines(es) + Seq::<char>::empty() =~= section);
        let i = choose|i: int| text::occurs_at(index, section, i);
        assert(index.subrange(0, i) + section + index.skip(i + section.len()) =~= index) by {
            assert(index.subrange(i, i + section.len()) == section);
        }
        lemma_has_around(
            index.subrange(0, i),
            section,
            index.skip(i + section.len()),
            index_line(es[k]),
        );
    }
}

/// A text without white space at its edges and without quotes there is held as it stands.
proof fn lemma_plain(s: Seq<char>)
    requires
        s.len() > 0,
        !text::is_space(s[0]),
        !text::is_space(s.last()),
        s[0] != '"' && s[0] != '\'',
        !s.contains('\n'),
    ensures
        entries::plain(s),
{
    text::lemma_trimmed_edges(s);
}

/// A date is held as it stands.
proof fn lemma_plain_day(today: Seq<char>, secs: u64)
    requires
        clock::is_day_of(today, secs),
    ensures
        entries::plain(today),
{
    let (y, m, d) = choose|y: int, m: int, d: int|
        clock::is_date(y, m, d) && #[trigger] clock::day_number(y, m, d) == secs / 86_400 && today
            == clock::date_text(y, m, d);
    clock::lemma_date_text(y, m, d);
    if today.contains('\n') {
        let i = choose|i: int| 0 <= i < today.len() && today[i] == '\n';
        assert(crate::digits::is_digit(today[i]) || today[i] == '-');
    }
    lemma_plain(today);
}

/// The category of a file is held as it stands.
proof fn lemma_plain_category(file: Seq<char>)
    ensures
        entries::plain(file_category(file)),
{
    reveal_strlit("preference");
    reveal_strlit("identity");
    reveal_strlit("goal");
    reveal_strlit("note");
    lemma_plain("preference"@);
    lemma_plain("identity"@);
    lemma_plain("goal"@);
    lemma_plain("note"@);
}

/// A fact without a line `---` can be kept in a file that has entries already, where the id
/// of the conversation and a category that was given are one line each. Where the fact has
/// no carriage return before a newline, it is read as it was. Where moreover the category
/// stands for itself without quotes, and so does the day of the entry with the same title,
/// if there is one, the file format holds the whole entry as it stands.
pub proof fn law_facts_can_be_kept(
    es: Seq<EntryView>,
    content: Seq<char>,
    path: Option<Seq<char>>,
    category: Option<Seq<char>>,
    importance: i64,
    source: Seq<char>,
    today: Seq<char>,
    secs: u64,
)
    requires
        forall|i: int| 0 <= i < es.len() ==> entries::one_line_fields(#[trigger] es[i]),
        clock::is_day_of(today, secs),
        entries::plain_body(content),
        !source.contains('\n'),
        given_category(category) matches Some(c) ==> !c.contains('\n'),
    ensures
        destination(path, category) matches Ok((_, kept_as)) ==> {
            let e = entry_for(es, content, kept_as, importance, source, today);
            &&& entries::separable(e)
            &&& entries::reread(e).body == content
            &&& (title_index(es, naming::title_of(content)) matches Some(i) ==> entries::plain(
                es[i].created,
            )) && (given_category(category) matches Some(c) ==> entries::plain(c))
                ==> entries::storable(e)
        },
{
    lemma_plain_day(today, secs);
    naming::law_titles_and_summaries_are_short(content);
    lemma_title_index(es, naming::title_of(content));
    if let Ok((file, kept_as)) = destination(path, category) {
        lemma_plain_category(file);
        let e = entry_for(es, content, kept_as, importance, source, today);
        if let Some(i) = title_index(es, naming::title_of(content)) {
            assert(entries::one_line_fields(es[i]));
        }
        assert(!naming::title_of(content).contains('\n'));
        assert(!e.summary.contains('\n'));
        entries::law_plain_bodies_are_kept(e);
        entries::law_one_line_fields_are_told_apart(e);
    }
}

/// The body of an entry is among the bodies.
proof fn lemma_bodies(es: Seq<EntryView>, k: int)
    requires
        0 <= k < es.len(),
        !text::blank(es[k].body),
    ensures
        bodies(es).contains(text::trimmed(es[k].body)),
    decreases es.len(),
{
    let before = bodies(es.drop_last());
    let all = bodies(es);
    if k == es.len() - 1 {
        assert(all[all.len() - 1] == text::trimmed(es[k].body));
    } else {
        lemma_bodies(es.drop_last(), k);
        let i = choose|i: int| 0 <= i < before.len() && before[i] == text::trimmed(es[k].body);
        assert(all[i] == before[i]);
    }
}

/// What was saved is read again: the file that a fact went to says the fact, beside what
/// else is kept in it. Left out are a fact with a line `---` or a carriage return before a
/// newline, an entry with such a line in its fields (see [`law_facts_can_be_kept`]), and a
/// file whose name begins with white space, which is taken for another when it is read.
pub proof fn law_saved_fact_is_read_again(
    m: MemoryView,
    content: Seq<char>,
    path: Option<Seq<char>>,
    category: Option<Seq<char>>,
    importance: i64,
    source: Seq<char>,
    today: Seq<char>,
    file: Seq<char>,
    entry: EntryView,
    es: Seq<EntryView>,
)
    requires
        keyed::increasing(m.files),
        saved(m, content, path, category, importance, source, today).1 == Ok::<
            (Seq<char>, EntryView),
            Seq<char>,
        >((file, entry)),
        !text::is_space(file[0]),
        entries_at(ensured(m).0.files, file) == Ok::<Seq<EntryView>, Seq<char>>(es),
        entries::plain_body(text::trimmed(content)),
        entries::separable(entry),
    ensures
        ({
            let n = saved(m, content, path, category, importance, source, today).0;
            let all = merged(es, naming::title_of(text::trimmed(content)), entry);
            let said = bodies(entries::all_reread(all));
            &&& body_at(n, file) == Ok::<Seq<char>, Seq<char>>(text::joined(said, "\n\n---\n\n"@))
            &&& said.contains(text::trimmed(content))
        }),
{
    let fact = text::trimmed(content);
    law_saved_fact_is_found(
        m,
        content,
        path,
        category,
        importance,
        source,
        today,
        file,
        entry,
        es,
    );
    let n = saved(m, content, path, category, importance, source, today).0;
    let all = merged(es, naming::title_of(fact), entry);
    let kept = entries::all_reread(all);
    match given(path) {
        Some(p) => {
            naming::law_names_settle(p);
        },
        None => {
            if let Some(c) = given_category(category) {
                lemma_category_name(c);
            }
        },
    }
    assert(naming::normalized(file) == Ok::<Seq<char>, Seq<char>>(file));
    let k = choose|k: int| 0 <= k < kept.len() && kept[k] == entries::reread(entry);
    entries::law_plain_bodies_are_kept(entry);
    assert(kept[k].body == fact);
    assert(text::trimmed(fact) == fact);
    lemma_bodies(kept, k);
    assert(kept.len() > 0);
    assert(keyed::lookup(n.files, file) is Some);
}

/// Whether no two entries have one title, whatever the case of its letters.
pub open spec fn titles_differ(es: Seq<EntryView>) -> bool {
    forall|i: int, j: int|
        0 <= i < j < es.len() ==> text::lower((#[trigger] es[i]).title) != text::lower(
            (#[trigger] es[j]).title,
        )
}

/// Saving a fact whose title is there already updates that entry and adds none; no two
/// entries come to have one title.
pub proof fn law_titles_stay_distinct(
    es: Seq<EntryView>,
    content: Seq<char>,
    category: Seq<char>,
    importance: i64,
    source: Seq<char>,
    today: Seq<char>,
)
    requires
        titles_differ(es),
    ensures
        ({
            let title = naming::title_of(content);
            let entry = entry_for(es, content, category, importance, source, today);
            let all = merged(es, title, entry);
            &&& titles_differ(all)
            &&& all.len() == es.len() + (if title_index(es, title) is Some {
                0int
            } else {
                1
            })
            &&& title_index(all, title) is Some
        }),
{
    let title = naming::title_of(content);
    let entry = entry_for(es, content, category, importance, source, today);
    let all = merged(es, title, entry);
    lemma_title_index(es, title);
    lemma_title_index(all, title);
    match title_index(es, title) {
        Some(k) => {
            assert(all[k].title == es[k].title);
            assert forall|i: int, j: int| 0 <= i < j < all.len() implies text::lower(
                (#[trigger] all[i]).title,
            ) != text::lower((#[trigger] all[j]).title) by {
                assert(all[i].title == es[i].title);
                assert(all[j].title == es[j].title);
            }
        },
        None => {
            assert(all[es.len() as int].title == title);
            assert forall|i: int, j: int| 0 <= i < j < all.len() implies text::lower(
                (#[trigger] all[i]).title,
            ) != text::lower((#[trigger] all[j]).title) by {
                assert(all[i] == es[i]);
                if j < es.len() {
                    assert(all[j] == es[j]);
                }
            }
        },
    }
}

/// An entry that was written is found by its title again.
proof fn lemma_title_again(es: Seq<EntryView>, t1: Seq<char>, t2: Seq<char>, entry: EntryView)
    requires
        forall|i: int| 0 <= i < es.len() ==> entries::one_line_fields(#[trigger] es[i]),
        entries::one_line_fields(entry),
        text::lower(t1) == text::lower(t2),
        entry.title == (match title_index(es, t1) {
            Some(i) => es[i].title,
            None => t1,
        }),
    ensures
        ({
            let es1 = entries::all_reread(merged(es, t1, entry));
            let k = title_index(es1, t2);
            &&& k is Some
            &&& 0 <= k->0 < es1.len()
            &&& es1[k->0] == entries::reread(entry)
            &&& es1[k->0].title == entry.title
        }),
{
    let all = merged(es, t1, entry);
    let es1 = entries::all_reread(all);
    lemma_title_index(es, t1);
    lemma_title_index(es1, t2);
    let k = match title_index(es, t1) {
        Some(k) => k,
        None => es.len() as int,
    };
    assert(all[k] == entry);
    assert forall|i: int| 0 <= i < all.len() implies (#[trigger] es1[i]).title == all[i].title by {
        if i != k {
            assert(all[i] == es[i]);
        }
        entries::law_one_line_fields_are_told_apart(all[i]);
    }
    assert forall|i: int| 0 <= i < k implies text::lower((#[trigger] es1[i]).title) != text::lower(
        t2,
    ) by {
        assert(es1[i].title == es[i].title);
    }
    assert(text::lower(es1[k].title) == text::lower(t2));
    let found = title_index(es1, t2);
    assert(found is Some);
    if found->0 < k {
        assert(text::lower(es1[found->0].title) != text::lower(t2));
    }
    assert(found == Some(k));
}

/// What a file holds once a fact was saved in it.
proof fn lemma_saved(
    m: MemoryView,
    content: Seq<char>,
    path: Option<Seq<char>>,
    category: Option<Seq<char>>,
    importance: i64,
    source: Seq<char>,
    today: Seq<char>,
    file: Seq<char>,
    entry: EntryView,
)
    requires
        keyed::increasing(m.files),
        saved(m, content, path, category, importance, source, today).1 == Ok::<
            (Seq<char>, EntryView),
            Seq<char>,
        >((file, entry)),
        entries::separable(entry),
    ensures
        ({
            let n = saved(m, content, path, category, importance, source, today).0;
            let title = naming::title_of(text::trimmed(content));
            let es = entries_at(ensured(m).0.files, file)->Ok_0;
            &&& ensured(m).1 is Ok
            &&& keyed::increasing(n.files)
            &&& keyed::lookup(n.files, file) is Some
            &&& entries_at(ensured(m).0.files, file) is Ok
            &&& entries_at(n.files, file) == Ok::<Seq<EntryView>, Seq<char>>(
                entries::all_reread(merged(es, title, entry)),
            )
            &&& forall|i: int| 0 <= i < es.len() ==> entries::one_line_fields(#[trigger] es[i])
            &&& entry.body == text::trimmed(content)
            &&& entry.title == match title_index(es, title) {
                Some(i) => es[i].title,
                None => title,
            }
            &&& title_index(es, title) matches Some(i) ==> entry.created == es[i].created
        }),
{
    let files = ensured(m).0.files;
    let es = entries_at(files, file)->Ok_0;
    law_saved_fact_is_found(
        m,
        content,
        path,
        category,
        importance,
        source,
        today,
        file,
        entry,
        es,
    );
    if let Some(Ok(text)) = keyed::lookup(files, file) {
        entries::law_read_entries_can_be_written(text);
    }
}

/// What a directory holds is there when it is made ready again.
proof fn lemma_ready_again(m: MemoryView, file: Seq<char>)
    requires
        keyed::increasing(m.files),
        ensured(m).1 is Ok,
        keyed::lookup(m.files, file) is Some,
    ensures
        entries_at(ensured(m).0.files, file) == entries_at(m.files, file),
{
    law_load_makes_all_files(m);
}

/// Whether `es2` is what a file has after the second of two facts with one title, where it
/// had `es1` after the first.
spec fn second_replaced(
    es1: Seq<EntryView>,
    es2: Seq<EntryView>,
    second: Seq<char>,
    entry: EntryView,
    new_entry: EntryView,
) -> bool {
    let k = title_index(es1, naming::title_of(text::trimmed(second)));
    &&& k is Some
    &&& es1[k->0] == entries::reread(entry)
    &&& es2 == entries::all_reread(es1.update(k->0, new_entry))
    &&& es2.len() == es1.len()
    &&& new_entry.title == entry.title
    &&& new_entry.created == es1[k->0].created
    &&& new_entry.body == text::trimmed(second)
}

/// The second fact takes the place of the first.
proof fn lemma_second_replaced(
    es: Seq<EntryView>,
    t1: Seq<char>,
    second: Seq<char>,
    entry: EntryView,
    new_entry: EntryView,
)
    requires
        forall|i: int| 0 <= i < es.len() ==> entries::one_line_fields(#[trigger] es[i]),
        entries::one_line_fields(entry),
        text::lower(t1) == text::lower(naming::title_of(text::trimmed(second))),
        entry.title == (match title_index(es, t1) {
            Some(i) => es[i].title,
            None => t1,
        }),
        ({
            let es1 = entries::all_reread(merged(es, t1, entry));
            let t2 = naming::title_of(text::trimmed(second));
            &&& new_entry.body == text::trimmed(second)
            &&& new_entry.title == match title_index(es1, t2) {
                Some(i) => es1[i].title,
                None => t2,
            }
            &&& title_index(es1, t2) matches Some(i) ==> new_entry.created == es1[i].created
        }),
    ensures
        ({
            let es1 = entries::all_reread(merged(es, t1, entry));
            let t2 = naming::title_of(text::trimmed(second));
            let es2 = entries::all_reread(merged(es1, t2, new_entry));
            second_replaced(es1, es2, second, entry, new_entry)
        }),
{
    lemma_title_again(es, t1, naming::title_of(text::trimmed(second)), entry);
}

/// A second fact under the title of the first takes its place: the file has no more entries
/// than before, the entry keeps its title and its day, and it says the second fact. What
/// else is in the file stays where it was.
pub proof fn law_second_fact_replaces_first(
    m: MemoryView,
    first: Seq<char>,
    path: Option<Seq<char>>,
    category: Option<Seq<char>>,
    importance: i64,
    source: Seq<char>,
    today: Seq<char>,
    n: MemoryView,
    second: Seq<char>,
    new_path: Option<Seq<char>>,
    new_category: Option<Seq<char>>,
    new_importance: i64,
    new_source: Seq<char>,
    new_today: Seq<char>,
    file: Seq<char>,
    entry: EntryView,
    new_entry: EntryView,
)
    requires
        keyed::increasing(m.files),
        saved(m, first, path, category, importance, source, today) == (
            n,
            Ok::<(Seq<char>, EntryView), Seq<char>>((file, entry)),
        ),
        saved(
            n,
            second,
            new_path,
            new_category,
            new_importance,
            new_source,
            new_today,
        ).1 == Ok::<(Seq<char>, EntryView), Seq<char>>((file, new_entry)),
        text::lower(naming::title_of(text::trimmed(first))) == text::lower(
            naming::title_of(text::trimmed(second)),
        ),
        entries::one_line_fields(entry),
        entries::separable(new_entry),
    ensures
        ({
            let l = saved(
                n,
                second,
                new_path,
                new_category,
                new_importance,
                new_source,
                new_today,
            ).0;
            let es1 = entries_at(n.files, file)->Ok_0;
            let es2 = entries_at(l.files, file)->Ok_0;
            let k = title_index(es1, naming::title_of(text::trimmed(second)));
            &&& entries_at(n.files, file) is Ok && entries_at(l.files, file) is Ok
            &&& k is Some
            &&& es1[k->0] == entries::reread(entry)
            &&& es2 == entries::all_reread(es1.update(k->0, new_entry))
            &&& es2.len() == es1.len()
            &&& new_entry.title == entry.title
            &&& new_entry.created == es1[k->0].created
            &&& new_entry.body == text::trimmed(second)
        }),
{
    let t1 = naming::title_of(text::trimmed(first));
    let es = entries_at(ensured(m).0.files, file)->Ok_0;
    assert(entries::separable(entry)) by {
        entries::law_one_line_fields_are_told_apart(entry);
    }
    lemma_saved(m, first, path, category, importance, source, today, file, entry);
    lemma_saved(
        n,
        second,
        new_path,
        new_category,
        new_importance,
        new_source,
        new_today,
        file,
        new_entry,
    );
    lemma_ready_again(n, file);
    lemma_second_replaced(es, t1, second, entry, new_entry);
}

/// Every change that is noted is one that was made to the files: replaying them on the
/// files as they were gives the files as they are.
pub open spec fn replayed(files: Files, changes: Seq<ChangeView>) -> Files
    decreases changes.len(),
{
    if changes.len() == 0 {
        files
    } else {
        changed(replayed(files, changes.drop_last()), changes.last())
    }
}

/// Whether `n` is `m` after the changes that `n` has noted beyond those of `m`.
pub open spec fn follows(m: MemoryView, n: MemoryView) -> bool {
    exists|more: Seq<ChangeView>|
        n.changes == m.changes + more && n.files == #[trigger] replayed(m.files, more)
}

/// One change more.
proof fn lemma_follows_after(m: MemoryView, n: MemoryView, change: ChangeView)
    requires
        follows(m, n),
    ensures
        follows(m, after(n, change)),
{
    let more = choose|more: Seq<ChangeView>|
        n.changes == m.changes + more && n.files == #[trigger] replayed(m.files, more);
    let longer = more.push(change);
    assert(longer.drop_last() =~= more);
    assert(after(n, change).changes =~= m.changes + longer);
    assert(after(n, change).files == replayed(m.files, longer));
}

/// Nothing was changed.
proof fn lemma_follows_itself(m: MemoryView)
    ensures
        follows(m, m),
{
    let none = Seq::<ChangeView>::empty();
    assert(m.changes =~= m.changes + none);
    assert(m.files == replayed(m.files, none));
}

/// The changes that are noted are those that were made: whoever makes them in order to
/// the files that the state had begun with has the files that it holds.
pub proof fn law_changes_are_noted(
    m: MemoryView,
    content: Seq<char>,
    path: Option<Seq<char>>,
    category: Option<Seq<char>>,
    importance: i64,
    source: Seq<char>,
    today: Seq<char>,
    name: Seq<char>,
)
    ensures
        follows(m, ensured(m).0),
        follows(m, saved(m, content, path, category, importance, source, today).0),
        follows(m, edited(m, name, content).0),
        follows(m, deleted(m, name).0),
{
    lemma_follows_itself(m);
    let m1 = with_file(m, "preferences.md"@);
    let m2 = with_file(m1, "identity.md"@);
    let m3 = with_file(m2, "goals.md"@);
    let m4 = with_file(m3, "notes.md"@);
    lemma_follows_after(m, m, ChangeView::Create { name: "preferences.md"@ });
    lemma_follows_after(m, m1, ChangeView::Create { name: "identity.md"@ });
    lemma_follows_after(m, m2, ChangeView::Create { name: "goals.md"@ });
    lemma_follows_after(m, m3, ChangeView::Create { name: "notes.md"@ });
    lemma_follows_reindexed(m, m4);
    let ready = ensured(m).0;
    assert(follows(m, ready));
    let fact = text::trimmed(content);
    if let Ok((file, kept_as)) = destination(path, category) {
        if let Ok(es) = entries_at(ready.files, file) {
            let entry = entry_for(es, fact, kept_as, importance, source, today);
            let all = merged(es, naming::title_of(fact), entry);
            let change = ChangeView::Write { name: file, content: entries::serialized(all) };
            lemma_follows_after(m, ready, change);
            lemma_follows_reindexed(m, after(ready, change));
        }
    }
    if let Ok(n) = naming::normalized(name) {
        lemma_follows_after(m, m, ChangeView::Write { name: n, content });
        lemma_follows_reindexed(m, after(m, ChangeView::Write { name: n, content }));
        lemma_follows_after(m, m, ChangeView::Delete { name: n });
        lemma_follows_reindexed(m, after(m, ChangeView::Delete { name: n }));
        lemma_follows_reindexed(m, m);
    }
}

/// Writing the index is one change more.
proof fn lemma_follows_reindexed(m: MemoryView, n: MemoryView)
    requires
        follows(m, n),
    ensures
        follows(m, reindexed(n).0),
{
    if let Ok(content) = index_text(n.files) {
        lemma_follows_after(m, n, ChangeView::Write { name: index_name(), content });
    }
}

/// The files that are listed beside those of the categories are all the Markdown files of
/// the directory but these and the index, in the order of their names.
pub proof fn law_other_files_are_listed(files: Files)
    ensures
        indexable(files) == canonical_names() + files.filter(
            |f: (Seq<char>, Result<Seq<char>, Seq<char>>)|
                text::ends(f.0, ".md"@) && f.0 != "index.md"@ && f.0 != "preferences.md"@ && f.0
                    != "identity.md"@ && f.0 != "goals.md"@ && f.0 != "notes.md"@,
        ).map_values(|f: (Seq<char>, Result<Seq<char>, Seq<char>>)| f.0),
        canonical_names() == seq!["preferences.md"@, "identity.md"@, "goals.md"@, "notes.md"@],
    decreases files.len(),
{
    let p = |f: (Seq<char>, Result<Seq<char>, Seq<char>>)|
        text::ends(f.0, ".md"@) && f.0 != "index.md"@ && f.0 != "preferences.md"@ && f.0
            != "identity.md"@ && f.0 != "goals.md"@ && f.0 != "notes.md"@;
    let g = |f: (Seq<char>, Result<Seq<char>, Seq<char>>)| f.0;
    reveal(Seq::filter);
    if files.len() > 0 {
        let front = files.drop_last();
        let last = files.last();
        law_other_files_are_listed(front);
        let names = canonical_names();
        assert(extra_names(front) =~= indexable(front).skip(4));
        assert(front.filter(p).map_values(g) =~= indexable(front).skip(4));
        assert(names[0] == "preferences.md"@ && names[1] == "identity.md"@ && names[2]
            == "goals.md"@ && names[3] == "notes.md"@);
        if names.contains(last.0) {
            let k = choose|k: int| 0 <= k < names.len() && names[k] == last.0;
            assert(k == 0 || k == 1 || k == 2 || k == 3);
        }
        assert(is_extra(last.0) == p(last));
        if p(last) {
            assert(front.filter(p).push(last).map_values(g) =~= front.filter(p).map_values(g).push(
                last.0,
            ));
        }
    } else {
        assert(files.filter(p).map_values(g) =~= Seq::<Seq<char>>::empty());
    }
    assert(indexable(files) =~= canonical_names() + files.filter(p).map_values(g));
}

/// The user is shown every Markdown file with its text, in the order of the names, one that
/// cannot be read as empty; only the index is marked as generated.
pub proof fn law_files_are_shown(files: Files)
    ensures
        listing(files) == files.filter(
            |f: (Seq<char>, Result<Seq<char>, Seq<char>>)| text::ends(f.0, ".md"@),
        ).map_values(
            |f: (Seq<char>, Result<Seq<char>, Seq<char>>)|
                MemoryFileView {
                    name: f.0,
                    content: if f.1 is Ok {
                        f.1->Ok_0
                    } else {
                        Seq::empty()
                    },
                    generated: f.0 == "index.md"@,
                },
        ),
    decreases files.len(),
{
    let p = |f: (Seq<char>, Result<Seq<char>, Seq<char>>)| text::ends(f.0, ".md"@);
    let g = |f: (Seq<char>, Result<Seq<char>, Seq<char>>)|
        MemoryFileView {
            name: f.0,
            content: if f.1 is Ok {
                f.1->Ok_0
            } else {
                Seq::empty()
            },
            generated: f.0 == "index.md"@,
        };
    reveal(Seq::filter);
    if files.len() > 0 {
        let front = files.drop_last();
        let last = files.last();
        law_files_are_shown(front);
        if p(last) {
            assert(front.filter(p).push(last).map_values(g) =~= front.filter(p).map_values(g).push(
                g(last),
            ));
            assert(listing(files) =~= listing(front).push(g(last)));
        }
    } else {
        assert(files.filter(p).map_values(g) =~= Seq::<MemoryFileView>::empty());
    }
}

/// What a file says is the text of each of its entries that has one, in their order; a file
/// without entries says what stands in it.
pub proof fn law_every_body_is_read(es: Seq<EntryView>, content: Seq<char>)
    ensures
        bodies(es) == es.filter(|e: EntryView| !text::blank(e.body)).map_values(
            |e: EntryView| text::trimmed(e.body),
        ),
        entries::parsed(content).len() == 0 ==> body_text(content) == text::trimmed(content),
        entries::parsed(content) == es && es.len() > 0 ==> body_text(content) == text::joined(
            es.filter(|e: EntryView| !text::blank(e.body)).map_values(
                |e: EntryView| text::trimmed(e.body),
            ),
            "\n\n---\n\n"@,
        ),
    decreases es.len(),
{
    let p = |e: EntryView| !text::blank(e.body);
    let g = |e: EntryView| text::trimmed(e.body);
    reveal(Seq::filter);
    if es.len() > 0 {
        let front = es.drop_last();
        law_every_body_is_read(front, content);
        if p(es.last()) {
            assert(front.filter(p).push(es.last()).map_values(g) =~= front.filter(p).map_values(
                g,
            ).push(g(es.last())));
        }
    } else {
        assert(es.filter(p).map_values(g) =~= Seq::<Seq<char>>::empty());
    }
}

/// An importance is kept where it is one from 0 to 5, and else brought to the nearer end.
pub proof fn law_importance_is_in_range(importance: i64)
    ensures
        0 <= importance <= 5 ==> clamped(importance) == importance,
        importance < 0 ==> clamped(importance) == 0,
        importance > 5 ==> clamped(importance) == 5,
{
}

/// The entry of a fact says the fact, its summary and where it comes from. A new one has
/// the title of the fact and the day; one under that title, in whatever letters, keeps its
/// title and the day on which it was made, and is the only one that changes.
pub proof fn law_entry_tells_the_fact(
    es: Seq<EntryView>,
    content: Seq<char>,
    category: Seq<char>,
    importance: i64,
    source: Seq<char>,
    today: Seq<char>,
    k: int,
)
    ensures
        ({
            let e = entry_for(es, content, category, importance, source, today);
            let title = naming::title_of(content);
            let all = merged(es, title, e);
            let same = |i: int| text::lower(es[i].title) == text::lower(title);
            &&& e.body == content && e.summary == naming::summary_of(content)
            &&& e.category == category && e.source_conversation == Some(source)
            &&& 0 <= importance <= 5 ==> e.importance == importance
            &&& (forall|i: int| 0 <= i < es.len() ==> !#[trigger] same(i)) ==> e.title == title
                && e.created == today && all == es.push(e)
            &&& 0 <= k < es.len() && same(k) && (forall|i: int| 0 <= i < k ==> !#[trigger] same(i))
                ==> e.title == es[k].title && e.created == es[k].created && all.len() == es.len()
                && all[k] == e && forall|i: int|
                0 <= i < es.len() && i != k ==> #[trigger] all[i] == es[i]
        }),
{
    let title = naming::title_of(content);
    let same = |i: int| text::lower(es[i].title) == text::lower(title);
    lemma_title_index(es, title);
    if forall|i: int| 0 <= i < es.len() ==> !#[trigger] same(i) {
        if let Some(i) = title_index(es, title) {
            assert(same(i));
        }
    }
    if 0 <= k < es.len() && same(k) && (forall|i: int| 0 <= i < k ==> !#[trigger] same(i)) {
        match title_index(es, title) {
            Some(i) => {
                if i < k {
                    assert(same(i));
                }
            },
            None => {
                assert(text::lower(es[k].title) != text::lower(title));
            },
        }
    }
}

/// A fact for which a path is given goes to that file, whatever the category, which it is
/// then kept under; without one it is kept under the category of the file.
pub proof fn law_path_decides(path: Seq<char>, category: Option<Seq<char>>, name: Seq<char>)
    requires
        !text::blank(path),
        naming::normalized(text::trimmed(path)) == Ok::<Seq<char>, Seq<char>>(name),
        name != "index.md"@,
    ensures
        destination(Some(path), category) matches Ok((file, _)) && file == name,
        category matches Some(c) && !text::blank(c) ==> destination(Some(path), category) == Ok::<
            (Seq<char>, Seq<char>),
            Seq<char>,
        >((name, text::lower(text::trimmed(category->0)))),
        category is None && name == "preferences.md"@ ==> destination(Some(path), category) == Ok::<
            (Seq<char>, Seq<char>),
            Seq<char>,
        >((name, "preference"@)),
        category is None && name == "identity.md"@ ==> destination(Some(path), category) == Ok::<
            (Seq<char>, Seq<char>),
            Seq<char>,
        >((name, "identity"@)),
        category is None && name == "goals.md"@ ==> destination(Some(path), category) == Ok::<
            (Seq<char>, Seq<char>),
            Seq<char>,
        >((name, "goal"@)),
        category is None && name != "preferences.md"@ && name != "identity.md"@ && name
            != "goals.md"@ ==> destination(Some(path), category) == Ok::<
            (Seq<char>, Seq<char>),
            Seq<char>,
        >((name, "note"@)),
{
    lemma_category_names_differ();
}

/// The names of the files and of the categories differ from each other.
proof fn lemma_category_names_differ()
    ensures
        "preferences.md"@ != "identity.md"@,
        "preferences.md"@ != "goals.md"@,
        "identity.md"@ != "goals.md"@,
        "preference"@ != "identity"@,
        "preference"@ != "goal"@,
        "preference"@ != "note"@,
        "identity"@ != "goal"@,
        "identity"@ != "note"@,
        "goal"@ != "note"@,
{
    reveal_strlit("preferences.md");
    reveal_strlit("identity.md");
    reveal_strlit("goals.md");
    reveal_strlit("preference");
    reveal_strlit("identity");
    reveal_strlit("goal");
    reveal_strlit("note");
    assert("preferences.md"@.len() == 14 && "identity.md"@.len() == 11 && "goals.md"@.len() == 8);
    assert("preference"@.len() == 10 && "identity"@.len() == 8 && "goal"@.len() == 4
        && "note"@.len() == 4);
    assert("goal"@[0] != "note"@[0]);
}

/// A fact without a path goes to the file of its category, in whatever letters it is given;
/// one without either, or under no known category, is refused.
pub proof fn law_category_decides_without_a_path(category: Seq<char>)
    ensures
        ({
            let c = text::lower(text::trimmed(category));
            let goes = |file: Seq<char>|
                destination(None, Some(category)) == Ok::<(Seq<char>, Seq<char>), Seq<char>>(
                    (file, c),
                );
            &&& !text::blank(category) && c == "preference"@ ==> goes("preferences.md"@)
            &&& !text::blank(category) && c == "identity"@ ==> goes("identity.md"@)
            &&& !text::blank(category) && c == "goal"@ ==> goes("goals.md"@)
            &&& !text::blank(category) && c == "note"@ ==> goes("notes.md"@)
            &&& c != "preference"@ && c != "identity"@ && c != "goal"@ && c != "note"@
                ==> destination(None, Some(category)) is Err
            &&& text::blank(category) ==> destination(None, Some(category)) is Err
            &&& destination(None, None) is Err
        }),
{
    lemma_category_names_differ();
}

/// The line of an entry in the index begins with its title and ends with its summary, where
/// it has one.
pub proof fn law_index_line_tells_the_entry(e: EntryView)
    ensures
        text::begins(index_line(e), "- "@ + e.title),
        e.summary.len() == 0 ==> index_line(e).len() == e.title.len() + 3,
        e.summary.len() > 0 ==> text::ends(index_line(e), " — "@ + e.summary + "\n"@)
            && index_line(e).len() == e.title.len() + e.summary.len() + 6,
        index_line(e).last() == '\n',
{
    reveal_strlit("- ");
    reveal_strlit(" — ");
    reveal_strlit("\n");
    let l = index_line(e);
    let head = "- "@ + e.title;
    assert(l.subrange(0, head.len() as int) =~= head);
    if e.summary.len() > 0 {
        let tail = " — "@ + e.summary + "\n"@;
        assert(l.subrange(l.len() - tail.len(), l.len() as int) =~= tail);
    }
}

/// The lines of entries stand in the index in the order of the entries, each once.
pub proof fn law_index_lines_are_in_order(es: Seq<EntryView>)
    ensures
        index_lines(es) == es.map_values(|e: EntryView| index_line(e)).flatten(),
    decreases es.len(),
{
    let f = |e: EntryView| index_line(e);
    let lines = es.map_values(f);
    lines.lemma_flatten_and_flatten_alt_are_equivalent();
    if es.len() > 0 {
        let front = es.drop_last();
        law_index_lines_are_in_order(front);
        assert(lines.drop_last() =~= front.map_values(f));
        front.map_values(f).lemma_flatten_and_flatten_alt_are_equivalent();
        assert(lines.last() == index_line(es.last()));
    } else {
        assert(lines =~= Seq::<Seq<char>>::empty());
    }
}

/// An edit and a deletion touch the file that was named and the index, and no other.
pub proof fn law_other_files_stay(m: MemoryView, path: Seq<char>, content: Seq<char>, other: Seq<char>)
    requires
        keyed::increasing(m.files),
        naming::normalized(path) is Ok,
        other != naming::normalized(path)->Ok_0,
        other != "index.md"@,
    ensures
        edited(m, path, content).1 is Ok ==> keyed::lookup(edited(m, path, content).0.files, other)
            == keyed::lookup(m.files, other),
        deleted(m, path).1 is Ok ==> keyed::lookup(deleted(m, path).0.files, other)
            == keyed::lookup(m.files, other),
{
    let name = naming::normalized(path)->Ok_0;
    keyed::lemma_put(m.files, name, Ok(content));
    keyed::lemma_without(m.files, name);
    if edited(m, path, content).1 is Ok {
        lemma_reindexed(after(m, ChangeView::Write { name, content }));
    }
    if deleted(m, path).1 is Ok {
        if keyed::lookup(m.files, name) is Some {
            lemma_reindexed(after(m, ChangeView::Delete { name }));
        } else {
            lemma_reindexed(m);
        }
    }
}

/// A file is read under the path that names it: its text as it stands, or why there is
/// none.
pub proof fn law_files_are_read(m: MemoryView, path: Seq<char>, name: Seq<char>, content: Seq<char>)
    requires
        naming::normalized(path) == Ok::<Seq<char>, Seq<char>>(name),
    ensures
        keyed::lookup(m.files, name) == Some(Ok::<Seq<char>, Seq<char>>(content)) ==> file_text(
            m,
            path,
        ) == Ok::<Seq<char>, Seq<char>>(content),
        keyed::lookup(m.files, name) == Some(Err::<Seq<char>, Seq<char>>(content)) ==> (file_text(
            m,
            path,
        ) matches Err(e) && text::ends(e, content)),
        keyed::lookup(m.files, name) is None ==> (file_text(m, path) matches Err(e) && text::ends(
            e,
            m.absent,
        )),
{
    let a = "read "@ + name + ": "@ + content;
    assert(a.subrange(a.len() - content.len(), a.len() as int) =~= content);
    let b = "read "@ + name + ": "@ + m.absent;
    assert(b.subrange(b.len() - m.absent.len(), b.len() as int) =~= m.absent);
}

/// What is told of a fact that was saved names the file, how important it is and its title.
pub proof fn law_saved_fact_is_told(file: Seq<char>, entry: EntryView)
    ensures
        text::begins(
            saved_text(file, entry),
            "Saved to "@ + file + " (importance "@ + digits::decimal(entry.importance as nat),
        ),
        text::ends(saved_text(file, entry), "): "@ + entry.title),
        saved_text(file, entry).len() == ("Saved to "@ + file + " (importance "@ + digits::decimal(
            entry.importance as nat,
        )).len() + ("): "@ + entry.title).len(),
{
    let s = saved_text(file, entry);
    let head = "Saved to "@ + file + " (importance "@ + digits::decimal(entry.importance as nat);
    let tail = "): "@ + entry.title;
    assert(s.subrange(0, head.len() as int) =~= head);
    assert(s.subrange(s.len() - tail.len(), s.len() as int) =~= tail);
}

/// A fact is as important as the call says, where it says a whole number, and else in the
/// middle.
pub proof fn law_importance_is_read(call: CallView, i: i64)
    ensures
        json::member(call.arguments, "importance"@) == Some(
            json::JsonView::Number(json::integer(i)),
        ) ==> importance_of(call) == i,
        json::member(call.arguments, "importance"@) is None ==> importance_of(call) == 3,
        json::member_text(call.arguments, "importance"@) is Some ==> importance_of(call) == 3,
{
}

/// A call to save a fact saves what it says where it says, and is answered with the file
/// and the entry, or with what went wrong; a call without a fact changes nothing.
pub proof fn law_save_call_saves(
    m: MemoryView,
    call: CallView,
    content: Seq<char>,
    source: Seq<char>,
    today: Seq<char>,
    n: MemoryView,
    r: Result<(Seq<char>, EntryView), Seq<char>>,
)
    requires
        call.name == "save_memory"@,
        (n, r) == saved(
            m,
            content,
            json::member_text(call.arguments, "path"@),
            json::member_text(call.arguments, "category"@),
            importance_of(call),
            source,
            today,
        ),
    ensures
        json::member_text(call.arguments, "content"@) == Some(content) ==> {
            let (after, answer) = executed(m, call, source, today);
            &&& after == n
            &&& r matches Ok((file, entry)) ==> !answer.is_error && answer.content == saved_text(
                file,
                entry,
            )
            &&& r matches Err(e) ==> answer == (OutputView { content: e, is_error: true })
        },
        json::member_text(call.arguments, "content"@) is None ==> executed(m, call, source, today).0
            == m && executed(m, call, source, today).1.is_error,
{
}

/// An index without entries says that there are none; one with entries has all sections.
pub proof fn law_empty_index_says_so(files: Files, sections: Seq<char>)
    requires
        index_sections(files, indexable(files)) == Ok::<Seq<char>, Seq<char>>(sections),
    ensures
        index_text(files) matches Ok(index) && text::begins(index, "# Memory index\n"@) && (
        sections.len() == 0 ==> text::ends(index, "\n_No memories saved yet._\n"@)) && (
        sections.len() > 0 ==> index == "# Memory index\n"@ + sections),
{
    let title = "# Memory index\n"@;
    let none = "\n_No memories saved yet._\n"@;
    let a = title + none;
    let b = title + sections;
    assert(a.subrange(0, title.len() as int) =~= title);
    assert(b.subrange(0, title.len() as int) =~= title);
    assert(a.subrange(a.len() - none.len(), a.len() as int) =~= none);
}

/// A file that is not there has no entries, one that is has those in its text, and one that
/// cannot be read says why.
pub proof fn law_entries_are_of_the_file(files: Files, name: Seq<char>, s: Seq<char>)
    ensures
        keyed::lookup(files, name) is None ==> entries_at(files, name) == Ok::<
            Seq<EntryView>,
            Seq<char>,
        >(Seq::empty()),
        keyed::lookup(files, name) == Some(Ok::<Seq<char>, Seq<char>>(s)) ==> entries_at(files, name)
            == Ok::<Seq<EntryView>, Seq<char>>(entries::parsed(s)),
        keyed::lookup(files, name) == Some(Err::<Seq<char>, Seq<char>>(s)) ==> (entries_at(
            files,
            name,
        ) matches Err(e) && text::ends(e, s)),
{
    let e = "read "@ + name + ": "@ + s;
    assert(e.subrange(e.len() - s.len(), e.len() as int) =~= s);
}

/// A call to read a file is answered with what the file says and changes nothing; one of
/// an empty file says so, and one that cannot be answered says why.
pub proof fn law_read_call_reads(
    m: MemoryView,
    call: CallView,
    path: Seq<char>,
    source: Seq<char>,
    today: Seq<char>,
)
    requires
        call.name == "read_memory"@,
    ensures
        executed(m, call, source, today).0 == m,
        json::member_text(call.arguments, "path"@) == Some(path) ==> {
            let answer = executed(m, call, source, today).1;
            &&& body_at(m, path) matches Ok(s) ==> !answer.is_error && (s.len() > 0
                ==> answer.content == s) && (s.len() == 0 ==> text::begins(answer.content, path))
            &&& body_at(m, path) matches Err(e) ==> answer == (OutputView {
                content: e,
                is_error: true,
            })
        },
        json::member_text(call.arguments, "path"@) is None ==> executed(
            m,
            call,
            source,
            today,
        ).1.is_error,
{
    reveal_strlit("save_memory");
    reveal_strlit("read_memory");
    assert("save_memory"@[0] != "read_memory"@[0]);
    let s = path + " is empty."@;
    assert(s.subrange(0, path.len() as int) =~= path);
}

} // verus!
