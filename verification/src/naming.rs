//! The names of memory files, and the titles and summaries of what is remembered.
use vstd::prelude::*;
use vstd::string::*;

use crate::text;

verus! {

/// The number of characters of a title.
pub const MAX_TITLE_CHARS: usize = 60;

/// The number of characters of a summary.
pub const MAX_SUMMARY_CHARS: usize = 160;

// ---------------------------------------------------------------------------
// File names
// ---------------------------------------------------------------------------

/// `s` without the `./` at its front, however often it stands there.
pub open spec fn undotted(s: Seq<char>) -> Seq<char>
    decreases s.len(),
{
    if s.len() >= 2 && s[0] == '.' && s[1] == '/' {
        undotted(s.skip(2))
    } else {
        s
    }
}

/// The name that a path is taken for: it may begin with `./` and `memory/`.
pub open spec fn bare_name(path: Seq<char>) -> Seq<char> {
    let name = undotted(text::trimmed(path));
    match text::after_prefix(name, "memory/"@) {
        Some(rest) => rest,
        None => name,
    }
}

/// Whether a name is that of a file in the memory directory itself.
pub open spec fn is_file_name(name: Seq<char>) -> bool {
    &&& name.len() > 0
    &&& !name.contains('/')
    &&& !name.contains('\\')
    &&& !text::has(name, ".."@)
    &&& text::ends(text::lower(name), ".md"@)
}

/// The file that a path names: a Markdown file in the memory directory, in small
/// letters. Any other path is refused.
pub open spec fn normalized(path: Seq<char>) -> Result<Seq<char>, Seq<char>> {
    let name = bare_name(path);
    if is_file_name(name) {
        Ok(text::lower(name))
    } else {
        Err("invalid memory path: '"@ + name + "' (expected a .md file name)"@)
    }
}

/// `s` without the `./` at its front.
fn strip_dots(s: String) -> (r: String)
    ensures
        r@ == undotted(s@),
{
    let v = text::chars_of(s.as_str());
    let mut i: usize = 0;
    assert(v@.skip(0) =~= v@);
    while v.len() - i >= 2 && v[i] == '.' && v[i + 1] == '/'
        invariant
            i <= v@.len(),
            undotted(v@) == undotted(v@.skip(i as int)),
        decreases v@.len() - i,
    {
        let ghost t = v@.skip(i as int);
        assert(t[0] == v@[i as int] && t[1] == v@[i + 1]);
        assert(t.skip(2) =~= v@.skip(i + 2));
        i += 2;
    }
    proof {
        let t = v@.skip(i as int);
        if t.len() >= 2 {
            assert(t[0] == v@[i as int] && t[1] == v@[i + 1]);
        }
        assert(v@.subrange(i as int, v@.len() as int) =~= t);
    }
    text::substring(&v, i, v.len())
}

/// The file that a path names, or why it names none.
pub fn normalize_name(path: &str) -> (r: Result<String, String>)
    ensures
        match r {
            Ok(name) => normalized(path@) == Ok::<Seq<char>, Seq<char>>(name@),
            Err(e) => normalized(path@) == Err::<Seq<char>, Seq<char>>(e@),
        },
{
    let name = strip_dots(text::trim(path));
    let name = match text::strip_prefix(name.as_str(), "memory/") {
        Some(rest) => rest,
        None => name,
    };
    let small = text::to_lower(name.as_str());
    if name.as_str().is_empty() || text::contains_char(name.as_str(), '/') || text::contains_char(
        name.as_str(),
        '\\',
    ) || text::contains(name.as_str(), "..") || !text::ends_with(small.as_str(), ".md") {
        let mut message = "invalid memory path: '".to_owned();
        message.append(name.as_str());
        message.append("' (expected a .md file name)");
        return Err(message);
    }
    Ok(small)
}

/// A name in small letters keeps what makes it a file name.
proof fn lemma_lower_file_name(name: Seq<char>)
    requires
        is_file_name(name),
    ensures
        is_file_name(text::lower(name)),
        text::lower(text::lower(name)) == text::lower(name),
{
    let n = text::lower(name);
    assert forall|i: int| 0 <= i < n.len() implies (n[i] == '/' ==> name[i] == '/') && (n[i] == '\\'
        ==> name[i] == '\\') && (n[i] == '.' ==> name[i] == '.') && text::lower_char(n[i])
        == n[i] by {
        assert(n[i] == text::lower_char(name[i]));
    }
    assert forall|i: int| 0 <= i < n.len() implies n[i] != '/' && n[i] != '\\' by {
        assert(name.contains(name[i]));
    }
    reveal_strlit("..");
    if text::has(n, ".."@) {
        let i = choose|i: int| text::occurs_at(n, ".."@, i);
        assert(n[i] == n.subrange(i, i + 2)[0]);
        assert(n[i + 1] == n.subrange(i, i + 2)[1]);
        assert(name.subrange(i, i + 2) =~= ".."@);
        assert(text::occurs_at(name, ".."@, i));
    }
    assert(text::lower(n) =~= n);
}

/// A path never leads out of the memory directory: what is accepted is a bare name,
/// without a separator and without `..`, that ends with `.md`.
pub proof fn law_names_stay_inside(path: Seq<char>)
    ensures
        normalized(path) matches Ok(name) ==> is_file_name(name) && text::lower(name) == name,
{
    if is_file_name(bare_name(path)) {
        lemma_lower_file_name(bare_name(path));
    }
}

/// A name that was accepted is taken for itself, unless white space stands before it.
pub proof fn law_names_settle(path: Seq<char>)
    ensures
        normalized(path) matches Ok(name) ==> (!text::is_space(name[0]) ==> normalized(name)
            == Ok::<Seq<char>, Seq<char>>(name)),
{
    law_names_stay_inside(path);
    if let Ok(name) = normalized(path) {
        if !text::is_space(name[0]) {
            reveal_strlit(".md");
            reveal_strlit("memory/");
            let n = name.len() as int;
            assert(text::lower(name).subrange(n - 3, n)[2] == 'd');
            assert(text::lower(name)[n - 1] == 'd');
            assert(name.last() == 'd');
            text::lemma_trimmed_edges(name);
            if name.len() >= 2 && name[0] == '.' && name[1] == '/' {
                assert(name.contains(name[1]));
            }
            if text::begins(name, "memory/"@) {
                assert(name.subrange(0, 7)[6] == '/');
                assert(name.contains(name[6]));
            }
        }
    }
}

// ---------------------------------------------------------------------------
// Titles and summaries
// ---------------------------------------------------------------------------

/// The first line that is not blank, trimmed.
pub open spec fn first_line(lines: Seq<Seq<char>>) -> Seq<char>
    decreases lines.len(),
{
    if lines.len() == 0 {
        Seq::empty()
    } else if !text::blank(lines[0]) {
        text::trimmed(lines[0])
    } else {
        first_line(lines.drop_first())
    }
}

/// `s` up to the first of the marks `set`, unless it begins with one.
pub open spec fn up_to(s: Seq<char>, set: Seq<char>) -> Seq<char> {
    match text::find(s, text::among(set)) {
        Some(i) => if i > 0 {
            s.take(i)
        } else {
            s
        },
        None => s,
    }
}

/// What stands for a fact in a list: its first line, or the first sentence of it,
/// without the marks of a list or a heading.
pub open spec fn title_base(content: Seq<char>) -> Seq<char> {
    let line = first_line(text::line_seq(content));
    let stripped = text::drop_leading(line, text::among(seq!['-', '*', '#', '>', ' ']));
    text::trimmed(up_to(stripped, seq!['.', '!', '?', ';']))
}

/// The title of a fact.
pub open spec fn title_of(content: Seq<char>) -> Seq<char> {
    let base = title_base(content);
    if base.len() == 0 {
        "Memory"@
    } else if base.len() > MAX_TITLE_CHARS {
        base.take(MAX_TITLE_CHARS as int).push('…')
    } else {
        base
    }
}

/// The summary of a fact: its first sentence, capped, on one line.
pub open spec fn summary_of(content: Seq<char>) -> Seq<char> {
    let flat = text::joined(text::words(content), seq![' ']);
    let sentence: int = match text::find(flat, text::among(seq!['.', '!', '?'])) {
        Some(i) => i + 1,
        None => flat.len() as int,
    };
    let cap: int = if sentence < MAX_SUMMARY_CHARS {
        sentence
    } else {
        MAX_SUMMARY_CHARS as int
    };
    if flat.len() > cap {
        text::trimmed(flat.take(cap).push('…'))
    } else {
        text::trimmed(flat)
    }
}

/// The first line that is not blank, trimmed.
pub fn find_first_line(lines: &Vec<String>) -> (r: String)
    ensures
        r@ == first_line(text::texts(lines@)),
{
    let ghost t = text::texts(lines@);
    let mut i: usize = 0;
    assert(t.skip(0) =~= t);
    while i < lines.len()
        invariant
            i <= lines@.len(),
            t == text::texts(lines@),
            first_line(t) == first_line(t.skip(i as int)),
        decreases lines@.len() - i,
    {
        assert(t.skip(i as int)[0] == lines@[i as int]@);
        assert(t.skip(i as int).drop_first() =~= t.skip(i + 1));
        if !text::is_blank(lines[i].as_str()) {
            return text::trim(lines[i].as_str());
        }
        i += 1;
    }
    String::new()
}

/// The title of a fact.
pub fn derive_title(content: &str) -> (r: String)
    ensures
        r@ == title_of(content@),
{
    let marks: Vec<char> = vec!['-', '*', '#', '>', ' '];
    let ends: Vec<char> = vec!['.', '!', '?', ';'];
    assert(marks@ =~= seq!['-', '*', '#', '>', ' ']);
    assert(ends@ =~= seq!['.', '!', '?', ';']);
    let first = find_first_line(&text::lines(content));
    let stripped = text::trim_start_among(first.as_str(), &marks);
    let v = text::chars_of(stripped.as_str());
    let base = match text::find_among(&v, &ends) {
        Some(p) => if p > 0 {
            let head = text::substring(&v, 0, p);
            assert(head@ =~= v@.take(p as int));
            text::trim(head.as_str())
        } else {
            text::trim(stripped.as_str())
        },
        None => text::trim(stripped.as_str()),
    };
    assert(base@ == title_base(content@));
    if base.as_str().is_empty() {
        return "Memory".to_owned();
    }
    if text::char_count(base.as_str()) > MAX_TITLE_CHARS {
        let mut title = text::take_chars(base.as_str(), MAX_TITLE_CHARS);
        title.push('…');
        title
    } else {
        base
    }
}

/// The summary of a fact.
pub fn derive_summary(content: &str) -> (r: String)
    ensures
        r@ == summary_of(content@),
{
    let ends: Vec<char> = vec!['.', '!', '?'];
    assert(ends@ =~= seq!['.', '!', '?']);
    proof {
        reveal_strlit(" ");
        assert(" "@ =~= seq![' ']);
    }
    let words = text::split_words(content);
    let flat = text::join(&words, " ");
    let v = text::chars_of(flat.as_str());
    proof {
        text::lemma_find(v@, text::among(ends@));
    }
    let sentence: usize = match text::find_among(&v, &ends) {
        Some(p) => p + 1,
        None => v.len(),
    };
    let cap: usize = if sentence < MAX_SUMMARY_CHARS {
        sentence
    } else {
        MAX_SUMMARY_CHARS
    };
    if v.len() > cap {
        let mut summary = text::take_chars(flat.as_str(), cap);
        summary.push('…');
        text::trim(summary.as_str())
    } else {
        text::trim(flat.as_str())
    }
}

// ---------------------------------------------------------------------------
// Laws
// ---------------------------------------------------------------------------

/// Whether a text is one line.
pub open spec fn one_line(s: Seq<char>) -> bool {
    forall|i: int| 0 <= i < s.len() ==> #[trigger] s[i] != '\n'
}

/// What is left of a line once it is trimmed is one line.
proof fn lemma_trimmed_line(s: Seq<char>)
    requires
        one_line(s),
    ensures
        one_line(text::trimmed(s)),
        text::trimmed(s).len() <= s.len(),
{
    let a = text::drop_leading(s, text::spaces());
    text::lemma_drop_leading(s, text::spaces());
    text::lemma_drop_trailing(a, text::spaces());
    let b = text::trimmed(s);
    assert forall|i: int| 0 <= i < b.len() implies #[trigger] b[i] != '\n' by {
        assert(b[i] == a[i]);
        assert(a[i] == s[i + s.len() - a.len()]);
    }
}

/// The first of lines is one line.
proof fn lemma_first_line(lines: Seq<Seq<char>>)
    requires
        forall|i: int| 0 <= i < lines.len() ==> one_line(#[trigger] lines[i]),
    ensures
        one_line(first_line(lines)),
    decreases lines.len(),
{
    if lines.len() > 0 {
        assert(one_line(lines[0]));
        lemma_trimmed_line(lines[0]);
        let rest = lines.drop_first();
        assert forall|i: int| 0 <= i < rest.len() implies one_line(#[trigger] rest[i]) by {
            assert(rest[i] == lines[i + 1]);
        }
        lemma_first_line(rest);
    }
}

/// Each line of a text is one line.
proof fn lemma_lines(s: Seq<char>)
    ensures
        forall|i: int|
            0 <= i < text::line_seq(s).len() ==> one_line(#[trigger] text::line_seq(s)[i]),
{
    let parts = text::split(s, text::newline());
    let lines = text::line_seq(s);
    text::lemma_split_pieces(s, text::newline());
    text::lemma_split_nonempty(s, text::newline());
    assert forall|i: int| 0 <= i < parts.len() implies one_line(#[trigger] parts[i]) by {
        assert forall|k: int| 0 <= k < parts[i].len() implies #[trigger] parts[i][k] != '\n' by {
            assert(!text::newline()(parts[i][k]));
            assert(seq!['\n'][0] == '\n');
            assert(seq!['\n'].contains('\n'));
        }
    }
    assert forall|i: int| 0 <= i < lines.len() implies one_line(#[trigger] lines[i]) by {
        let part = parts[i];
        assert(one_line(part));
        assert(lines[i] == text::without_cr(part) || lines[i] == part);
    }
}

/// Words with blanks between them are one line.
proof fn lemma_joined_line(words: Seq<Seq<char>>)
    requires
        forall|i: int| 0 <= i < words.len() ==> one_line(#[trigger] words[i]),
    ensures
        one_line(text::joined(words, seq![' '])),
    decreases words.len(),
{
    let all = text::joined(words, seq![' ']);
    if words.len() == 1 {
        assert(one_line(words[0]));
    } else if words.len() > 1 {
        let rest = words.drop_last();
        assert forall|i: int| 0 <= i < rest.len() implies one_line(#[trigger] rest[i]) by {
            assert(rest[i] == words[i]);
        }
        lemma_joined_line(rest);
        let before = text::joined(rest, seq![' ']);
        assert(one_line(words[words.len() - 1]));
        assert(all == before + seq![' '] + words.last());
        assert forall|i: int| 0 <= i < all.len() implies #[trigger] all[i] != '\n' by {
            if i < before.len() {
                assert(all[i] == before[i]);
            } else if i > before.len() {
                assert(all[i] == words.last()[i - before.len() - 1]);
            }
        }
    }
}

/// What is kept of pieces that are one line each is one line each.
proof fn lemma_kept_lines(parts: Seq<Seq<char>>, keep: spec_fn(Seq<char>) -> bool)
    requires
        forall|i: int| 0 <= i < parts.len() ==> one_line(#[trigger] parts[i]),
    ensures
        forall|i: int|
            0 <= i < parts.filter(keep).len() ==> one_line(#[trigger] parts.filter(keep)[i]),
    decreases parts.len(),
{
    reveal(Seq::filter);
    if parts.len() > 0 {
        let rest = parts.drop_last();
        assert forall|i: int| 0 <= i < rest.len() implies one_line(#[trigger] rest[i]) by {
            assert(rest[i] == parts[i]);
        }
        lemma_kept_lines(rest, keep);
        assert(one_line(parts[parts.len() - 1]));
        let out = parts.filter(keep);
        assert forall|i: int| 0 <= i < out.len() implies one_line(#[trigger] out[i]) by {
            if i < rest.filter(keep).len() {
                assert(out[i] == rest.filter(keep)[i]);
            }
        }
    }
}

/// The title and the summary of a fact are one line each, whatever the fact is; the title
/// is never empty, and neither is longer than it may be, but for a mark that it was cut.
pub proof fn law_titles_and_summaries_are_short(content: Seq<char>)
    ensures
        one_line(title_of(content)),
        0 < title_of(content).len() <= MAX_TITLE_CHARS + 1,
        one_line(summary_of(content)),
        summary_of(content).len() <= MAX_SUMMARY_CHARS + 1,
{
    lemma_title_line(content);
    lemma_summary_line(content);
}

/// The title of a fact is one line.
proof fn lemma_title_line(content: Seq<char>)
    ensures
        one_line(title_of(content)),
        0 < title_of(content).len() <= MAX_TITLE_CHARS + 1,
{
    let lines = text::line_seq(content);
    lemma_lines(content);
    lemma_first_line(lines);
    let line = first_line(lines);
    let marks = text::among(seq!['-', '*', '#', '>', ' ']);
    let stripped = text::drop_leading(line, marks);
    text::lemma_drop_leading(line, marks);
    assert forall|i: int| 0 <= i < stripped.len() implies #[trigger] stripped[i] != '\n' by {
        assert(stripped[i] == line[i + line.len() - stripped.len()]);
    }
    let ends = text::among(seq!['.', '!', '?', ';']);
    text::lemma_find(stripped, ends);
    let head = up_to(stripped, seq!['.', '!', '?', ';']);
    assert(one_line(head));
    lemma_trimmed_line(head);
    reveal_strlit("Memory");
    assert(one_line("Memory"@));
    let base = title_base(content);
    let title = title_of(content);
    assert forall|i: int| 0 <= i < title.len() implies #[trigger] title[i] != '\n' by {
        if base.len() > 0 && i < base.len() && i < MAX_TITLE_CHARS {
            assert(title[i] == base[i]);
        }
    }
}

/// The summary of a fact is one line.
proof fn lemma_summary_line(content: Seq<char>)
    ensures
        one_line(summary_of(content)),
        summary_of(content).len() <= MAX_SUMMARY_CHARS + 1,
{
    let parts = text::split(content, text::spaces());
    text::lemma_split_pieces(content, text::spaces());
    assert forall|i: int| 0 <= i < parts.len() implies one_line(#[trigger] parts[i]) by {
        assert forall|k: int| 0 <= k < parts[i].len() implies #[trigger] parts[i][k] != '\n' by {
            assert(!text::spaces()(parts[i][k]));
            assert(text::is_space('\n'));
        }
    }
    lemma_kept_lines(parts, |w: Seq<char>| w.len() > 0);
    let words = text::words(content);
    lemma_joined_line(words);
    let flat = text::joined(words, seq![' ']);
    text::lemma_find(flat, text::among(seq!['.', '!', '?']));
    lemma_trimmed_line(flat);
    let sentence: int = match text::find(flat, text::among(seq!['.', '!', '?'])) {
        Some(i) => i + 1,
        None => flat.len() as int,
    };
    let cap: int = if sentence < MAX_SUMMARY_CHARS {
        sentence
    } else {
        MAX_SUMMARY_CHARS as int
    };
    if flat.len() > cap {
        let cut = flat.take(cap).push('…');
        assert forall|i: int| 0 <= i < cut.len() implies #[trigger] cut[i] != '\n' by {
            if i < cap {
                assert(cut[i] == flat[i]);
            }
        }
        lemma_trimmed_line(cut);
    }
}

/// What is accepted is the name of a file in the directory itself, whatever path was
/// given: not empty, without a separator or `..`, ending with `.md`, in small letters.
pub proof fn law_accepted_names_are_bare(path: Seq<char>, i: int)
    ensures
        normalized(path) matches Ok(name) ==> {
            &&& name.len() > 0
            &&& !name.contains('/') && !name.contains('\\')
            &&& !text::occurs_at(name, ".."@, i)
            &&& text::ends(name, ".md"@)
            &&& 0 <= i < name.len() ==> !('A' <= name[i] && name[i] <= 'Z')
        },
{
    law_names_stay_inside(path);
    if let Ok(name) = normalized(path) {
        if 0 <= i < name.len() {
            text::law_only_capitals_change(name, i);
        }
    }
}

/// A bare name has nothing before it that may be left out.
proof fn lemma_bare(name: Seq<char>)
    requires
        name.len() > 0,
        !name.contains('/'),
    ensures
        undotted(name) == name,
        !text::begins(name, "memory/"@),
{
    reveal_strlit("memory/");
    if name.len() >= 2 {
        assert(name.contains(name[1]));
    }
    if text::begins(name, "memory/"@) {
        assert(name.subrange(0, "memory/"@.len() as int)[6] == name[6]);
        assert(name.contains(name[6]));
    }
}

/// A name with `memory/` before it is bared to the name.
proof fn lemma_bare_below(name: Seq<char>)
    ensures
        undotted("memory/"@ + name) == "memory/"@ + name,
        text::after_prefix("memory/"@ + name, "memory/"@) == Some(name),
{
    reveal_strlit("memory/");
    let m = "memory/"@;
    let b = m + name;
    assert(b[0] == m[0]);
    assert(b.subrange(0, m.len() as int) =~= m);
    assert(b.skip(m.len() as int) =~= name);
}

/// `./` at the front is dropped.
proof fn lemma_undotted(name: Seq<char>)
    ensures
        undotted("./"@ + name) == undotted(name),
{
    reveal_strlit("./");
    let a = "./"@ + name;
    assert(a[0] == "./"@[0] && a[1] == "./"@[1]);
    assert(a.skip(2) =~= name);
}

/// A file is found under its name in any letters, also with `./` or `memory/` before it.
pub proof fn law_paths_lead_to_their_file(name: Seq<char>)
    requires
        name.len() > 0,
        !text::is_space(name[0]),
        !text::is_space(name.last()),
        !name.contains('/'),
        !name.contains('\\'),
        forall|i: int| !#[trigger] text::occurs_at(name, ".."@, i),
        text::ends(text::lower(name), ".md"@),
    ensures
        normalized(name) == Ok::<Seq<char>, Seq<char>>(text::lower(name)),
        normalized("./"@ + name) == Ok::<Seq<char>, Seq<char>>(text::lower(name)),
        normalized("memory/"@ + name) == Ok::<Seq<char>, Seq<char>>(text::lower(name)),
        normalized("./"@ + ("memory/"@ + name)) == Ok::<Seq<char>, Seq<char>>(text::lower(name)),
{
    reveal_strlit("./");
    reveal_strlit("memory/");
    assert(is_file_name(name));
    lemma_bare(name);
    text::lemma_trimmed_edges(name);
    let a = "./"@ + name;
    assert(a[0] == '.' && a.last() == name.last());
    text::lemma_trimmed_edges(a);
    lemma_undotted(name);
    let b = "memory/"@ + name;
    assert(b[0] == 'm' && b.last() == name.last());
    text::lemma_trimmed_edges(b);
    lemma_bare_below(name);
    let c = "./"@ + b;
    assert(c[0] == '.' && c.last() == name.last());
    text::lemma_trimmed_edges(c);
    lemma_undotted(b);
    assert(bare_name(name) == name);
    assert(bare_name(a) == name);
    assert(bare_name(b) == name);
    assert(bare_name(c) == name);
}

/// A path that leads elsewhere is refused: one with a separator behind what may stand
/// before a name, one with `..`, and one of no Markdown file.
pub proof fn law_other_paths_are_refused(path: Seq<char>, name: Seq<char>, i: int)
    requires
        name == bare_name(path),
        name.contains('/') || name.contains('\\') || text::occurs_at(name, ".."@, i)
            || !text::ends(text::lower(name), ".md"@),
    ensures
        normalized(path) is Err,
{
}

/// The first line that is not blank is taken, without the white space around it.
pub proof fn law_first_line_is_taken(lines: Seq<Seq<char>>, k: int)
    ensures
        0 <= k < lines.len() && !text::blank(lines[k]) && (forall|j: int|
            0 <= j < k ==> text::blank(#[trigger] lines[j])) ==> first_line(lines) == text::trimmed(
            lines[k],
        ),
        (forall|j: int| 0 <= j < lines.len() ==> text::blank(#[trigger] lines[j])) ==> first_line(
            lines,
        ).len() == 0,
    decreases lines.len(),
{
    if lines.len() > 0 && text::blank(lines[0]) {
        let rest = lines.drop_first();
        law_first_line_is_taken(rest, k - 1);
        assert(forall|j: int| 0 <= j < rest.len() ==> #[trigger] rest[j] == lines[j + 1]);
    }
}

/// A line without a newline is the only line of itself.
proof fn lemma_one_line_seq(s: Seq<char>)
    requires
        one_line(s),
        s.len() > 0,
    ensures
        text::line_seq(s) == seq![s],
{
    assert forall|i: int| 0 <= i < s.len() implies !text::newline()(#[trigger] s[i]) by {
        if text::newline()(s[i]) {
            let nl: Seq<char> = seq!['\n'];
            let k = choose|k: int| 0 <= k < nl.len() && nl[k] == s[i];
            assert(nl[k] == '\n');
        }
    }
    text::lemma_split_whole(s, text::newline());
    assert(text::line_seq(s) =~= seq![s]);
}

/// What is dropped at the front is all of a run that satisfies `p`.
proof fn lemma_drop_lead(lead: Seq<char>, s: Seq<char>, p: spec_fn(char) -> bool)
    requires
        forall|i: int| 0 <= i < lead.len() ==> p(#[trigger] lead[i]),
        s.len() > 0,
        !p(s[0]),
    ensures
        text::drop_leading(lead + s, p) == s,
    decreases lead.len(),
{
    let all = lead + s;
    if lead.len() > 0 {
        assert(all[0] == lead[0]);
        assert(all.drop_first() =~= lead.drop_first() + s);
        let rest = lead.drop_first();
        assert forall|i: int| 0 <= i < rest.len() implies p(#[trigger] rest[i]) by {
            assert(rest[i] == lead[i + 1]);
        }
        lemma_drop_lead(rest, s, p);
    } else {
        assert(all =~= s);
    }
}

/// The title of a line is what it says: its first sentence, without the marks of a list or
/// a heading before it and without the mark that ends it. One of more than sixty
/// characters is cut to these, with a mark that it was.
pub proof fn law_title_is_the_first_sentence(lead: Seq<char>, said: Seq<char>, tail: Seq<char>)
    requires
        one_line(lead + said + tail),
        said.len() > 0,
        !text::is_space(said[0]),
        !text::is_space(said.last()),
        forall|i: int|
            0 <= i < lead.len() ==> ((#[trigger] lead[i]) == '-' || lead[i] == '*' || lead[i] == '#'
                || lead[i] == '>' || lead[i] == ' '),
        lead.len() > 0 ==> lead[0] != ' ',
        said[0] != '-' && said[0] != '*' && said[0] != '#' && said[0] != '>',
        forall|i: int|
            0 <= i < said.len() ==> (#[trigger] said[i]) != '.' && said[i] != '!' && said[i] != '?'
                && said[i] != ';',
        tail.len() > 0 ==> (tail[0] == '.' || tail[0] == '!' || tail[0] == '?' || tail[0] == ';')
            && !text::is_space(tail.last()),
    ensures
        said.len() <= 60 ==> title_of(lead + said + tail) == said,
        said.len() > 60 ==> title_of(lead + said + tail) == said.take(60).push('…'),
{
    let content = lead + said + tail;
    let marks: Seq<char> = seq!['-', '*', '#', '>', ' '];
    let ends: Seq<char> = seq!['.', '!', '?', ';'];
    assert(content[0] == if lead.len() > 0 {
        lead[0]
    } else {
        said[0]
    });
    assert(content.last() == if tail.len() > 0 {
        tail.last()
    } else {
        said.last()
    });
    assert(!text::is_space(content[0]));
    text::lemma_trimmed_edges(content);
    lemma_one_line_seq(content);
    assert(text::line_seq(content)[0] == content);
    assert(first_line(text::line_seq(content)) == content);
    let p = text::among(marks);
    assert forall|i: int| 0 <= i < lead.len() implies p(#[trigger] lead[i]) by {
        assert(marks[0] == '-' && marks[1] == '*' && marks[2] == '#' && marks[3] == '>' && marks[4]
            == ' ');
        assert(marks.contains(lead[i]));
    }
    let s = said + tail;
    assert(s[0] == said[0]);
    if p(s[0]) {
        let k = choose|k: int| 0 <= k < marks.len() && marks[k] == s[0];
        assert(marks[k] == '-' || marks[k] == '*' || marks[k] == '#' || marks[k] == '>' || marks[k]
            == ' ');
        assert(text::is_space(' '));
    }
    lemma_drop_lead(lead, s, p);
    assert(lead + s =~= content);
    let q = text::among(ends);
    assert forall|i: int| 0 <= i < said.len() implies !q(#[trigger] s[i]) by {
        assert(s[i] == said[i]);
        if q(s[i]) {
            let k = choose|k: int| 0 <= k < ends.len() && ends[k] == s[i];
            assert(ends[k] == '.' || ends[k] == '!' || ends[k] == '?' || ends[k] == ';');
        }
    }
    if tail.len() > 0 {
        assert(s[said.len() as int] == tail[0]);
        assert(ends[0] == '.' && ends[1] == '!' && ends[2] == '?' && ends[3] == ';');
        assert(ends.contains(tail[0]));
        text::lemma_find_is(s, q, said.len() as int);
        assert(s.take(said.len() as int) =~= said);
    } else {
        assert(s =~= said);
        text::lemma_find_none(s, q);
    }
    assert(up_to(s, ends) == said);
    text::lemma_trimmed_edges(said);
}

/// The title of a fact is that of its first line that is not blank; a fact without one is
/// called a memory.
pub proof fn law_title_is_of_the_first_line(content: Seq<char>, k: int)
    ensures
        ({
            let lines = text::line_seq(content);
            &&& 0 <= k < lines.len() && !text::blank(lines[k]) && (forall|j: int|
                0 <= j < k ==> text::blank(#[trigger] lines[j])) ==> title_of(content) == title_of(
                text::trimmed(lines[k]),
            )
            &&& (forall|j: int| 0 <= j < lines.len() ==> text::blank(#[trigger] lines[j]))
                ==> title_of(content) == "Memory"@
        }),
{
    let lines = text::line_seq(content);
    law_first_line_is_taken(lines, k);
    if 0 <= k < lines.len() && !text::blank(lines[k]) && (forall|j: int|
        0 <= j < k ==> text::blank(#[trigger] lines[j])) {
        lemma_lines(content);
        assert(one_line(lines[k]));
        lemma_trimmed_line(lines[k]);
        let l = text::trimmed(lines[k]);
        text::lemma_trimmed_twice(lines[k]);
        lemma_one_line_seq(l);
        assert(text::line_seq(l)[0] == l);
        assert(!text::blank(l));
        assert(first_line(text::line_seq(l)) == l);
    }
    if forall|j: int| 0 <= j < lines.len() ==> text::blank(#[trigger] lines[j]) {
        let marks = text::among(seq!['-', '*', '#', '>', ' ']);
        let e = first_line(lines);
        assert(text::drop_leading(e, marks) == e);
        assert(text::find(e, text::among(seq!['.', '!', '?', ';'])) is None);
        assert(text::trimmed(e).len() == 0);
    }
}

/// The words of a fact with one blank between them begin and end with no white space.
proof fn lemma_flat_edges(content: Seq<char>)
    ensures
        ({
            let flat = text::joined(text::words(content), seq![' ']);
            flat.len() > 0 ==> !text::is_space(flat[0]) && !text::is_space(flat.last())
        }),
{
    let parts = text::split(content, text::spaces());
    let full = |w: Seq<char>| w.len() > 0;
    text::lemma_split_pieces(content, text::spaces());
    assert forall|i: int| 0 <= i < parts.len() && (#[trigger] parts[i]).len() > 0 implies {
        !text::is_space(parts[i][0]) && !text::is_space(parts[i].last())
    } by {
        assert(!text::spaces()(parts[i][0]));
        assert(!text::spaces()(parts[i][parts[i].len() - 1]));
    }
    lemma_kept_words(parts);
    lemma_joined_edges(text::words(content));
}

/// Words that are kept begin and end as they did.
proof fn lemma_kept_words(parts: Seq<Seq<char>>)
    requires
        forall|i: int|
            0 <= i < parts.len() && (#[trigger] parts[i]).len() > 0 ==> !text::is_space(parts[i][0])
                && !text::is_space(parts[i].last()),
    ensures
        ({
            let kept = parts.filter(|w: Seq<char>| w.len() > 0);
            forall|i: int|
                0 <= i < kept.len() ==> (#[trigger] kept[i]).len() > 0 && !text::is_space(
                    kept[i][0],
                ) && !text::is_space(kept[i].last())
        }),
    decreases parts.len(),
{
    reveal(Seq::filter);
    let full = |w: Seq<char>| w.len() > 0;
    if parts.len() > 0 {
        let rest = parts.drop_last();
        assert forall|i: int| 0 <= i < rest.len() && (#[trigger] rest[i]).len() > 0 implies {
            !text::is_space(rest[i][0]) && !text::is_space(rest[i].last())
        } by {
            assert(rest[i] == parts[i]);
        }
        lemma_kept_words(rest);
        let kept = parts.filter(full);
        assert(parts.last() == parts[parts.len() - 1]);
        assert forall|i: int| 0 <= i < kept.len() implies (#[trigger] kept[i]).len() > 0
            && !text::is_space(kept[i][0]) && !text::is_space(kept[i].last()) by {
            if i < rest.filter(full).len() {
                assert(kept[i] == rest.filter(full)[i]);
            }
        }
    }
}

/// Words that are joined begin with the first and end with the last of them.
proof fn lemma_joined_edges(words: Seq<Seq<char>>)
    requires
        forall|i: int|
            0 <= i < words.len() ==> (#[trigger] words[i]).len() > 0 && !text::is_space(words[i][0])
                && !text::is_space(words[i].last()),
    ensures
        ({
            let flat = text::joined(words, seq![' ']);
            &&& words.len() > 0 ==> flat.len() > 0
            &&& flat.len() > 0 ==> !text::is_space(flat[0]) && !text::is_space(flat.last())
        }),
    decreases words.len(),
{
    if words.len() == 1 {
        assert(words[0].len() > 0);
    } else if words.len() > 1 {
        let rest = words.drop_last();
        assert forall|i: int| 0 <= i < rest.len() implies (#[trigger] rest[i]).len() > 0
            && !text::is_space(rest[i][0]) && !text::is_space(rest[i].last()) by {
            assert(rest[i] == words[i]);
        }
        lemma_joined_edges(rest);
        let before = text::joined(rest, seq![' ']);
        let flat = text::joined(words, seq![' ']);
        assert(words.last() == words[words.len() - 1]);
        assert(flat == before + seq![' '] + words.last());
        assert(flat[0] == before[0]);
        assert(flat.last() == words.last().last());
    }
}

/// The summary of a fact is its words with one blank between them, up to the end of the
/// first sentence and to a hundred and sixty characters at most, with a mark where
/// something was cut.
pub proof fn law_summary_is_the_first_sentence(content: Seq<char>, i: int)
    ensures
        ({
            let flat = text::joined(text::words(content), seq![' ']);
            let ends = |c: char| c == '.' || c == '!' || c == '?';
            let first = 0 <= i < flat.len() && ends(flat[i]) && (forall|j: int|
                0 <= j < i ==> !ends(#[trigger] flat[j]));
            let none = forall|j: int| 0 <= j < flat.len() ==> !ends(#[trigger] flat[j]);
            &&& none && flat.len() <= 160 ==> summary_of(content) == flat
            &&& none && flat.len() > 160 ==> summary_of(content) == flat.take(160).push('…')
            &&& first && i + 1 == flat.len() && i < 160 ==> summary_of(content) == flat
            &&& first && i + 1 < flat.len() && i < 160 ==> summary_of(content) == flat.take(
                i + 1,
            ).push('…')
            &&& first && i >= 160 ==> summary_of(content) == flat.take(160).push('…')
        }),
{
    let flat = text::joined(text::words(content), seq![' ']);
    let set: Seq<char> = seq!['.', '!', '?'];
    let p = text::among(set);
    lemma_flat_edges(content);
    if flat.len() > 0 {
        text::lemma_trimmed_edges(flat);
    }
    assert forall|c: char| #[trigger] p(c) == (c == '.' || c == '!' || c == '?') by {
        assert(set[0] == '.' && set[1] == '!' && set[2] == '?');
        if set.contains(c) {
            let k = choose|k: int| 0 <= k < set.len() && set[k] == c;
            assert(k == 0 || k == 1 || k == 2);
        }
    }
    text::lemma_find(flat, p);
    if let Some(f) = text::find(flat, p) {
        assert(p(flat[f]));
        if 0 <= i < flat.len() && f < i {
            assert(p(flat[f]));
        }
    }
    let sentence: int = match text::find(flat, p) {
        Some(f) => f + 1,
        None => flat.len() as int,
    };
    let cap: int = if sentence < 160 {
        sentence
    } else {
        160
    };
    if flat.len() > cap {
        let cut = flat.take(cap).push('…');
        assert(cut[0] == flat[0]);
        assert(!text::is_space('…'));
        text::lemma_trimmed_edges(cut);
    }
}

} // verus!
