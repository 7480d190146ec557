//! The shell of a conversation: what is written to it for a command, and what is made of
//! what it prints.
//!
//! A shell outlives its commands. To see where the output of one ends, a line that
//! nothing else prints is printed after it, with the exit code.
use vstd::prelude::*;
use vstd::string::*;
use vstd::utf8::*;

use crate::digits;
use crate::ids;
use crate::text;
use crate::tools;
use crate::tools::{OutputView, ToolOutput};

verus! {

/// The seconds after which a command is given up.
pub const DEFAULT_TIMEOUT_SECS: u64 = 60;

/// The number of bytes from which on output is read but no longer kept. A character has at
/// most four, so that nothing is lost of an output that the model gets to see whole.
pub const MAX_KEPT_BYTES: usize = 80_000;

/// The beginning of the line that marks the end of a command's output.
pub open spec fn sentinel_of(token: Seq<char>) -> Seq<char> {
    "__PI_DONE_"@ + token + "__"@
}

/// A beginning for the line that marks the end of a command's output.
pub fn fresh_sentinel() -> (r: String)
    ensures
        exists|id: Seq<char>|
            ids::is_uuid(id) && r@ == sentinel_of(#[trigger] ids::unhyphenated(id)),
{
    let mut out = "__PI_DONE_".to_owned();
    out.append(ids::fresh_token().as_str());
    out.append("__");
    out
}

/// What is written to the shell for a command. The command reads nothing, so that it
/// cannot swallow what follows it, unless it holds a heredoc, which is read from there.
pub open spec fn script_of(command: Seq<char>, sentinel: Seq<char>) -> Seq<char> {
    "exec 2>&1\n"@ + command + (if text::has(command, "<<"@) {
        ""@
    } else {
        " </dev/null"@
    }) + "\nprintf '\\n"@ + sentinel + "%s\\n' \"$?\"\n"@
}

/// What is written to the shell for a command.
pub fn script(command: &str, sentinel: &str) -> (r: String)
    ensures
        r@ == script_of(command@, sentinel@),
{
    let mut out = "exec 2>&1\n".to_owned();
    out.append(command);
    let redirect = if text::contains(command, "<<") {
        ""
    } else {
        " </dev/null"
    };
    out.append(redirect);
    out.append("\nprintf '\\n");
    out.append(sentinel);
    out.append("%s\\n' \"$?\"\n");
    out
}

/// The output of a command while it is read.
pub struct OutputReader {
    sentinel: String,
    output: String,
}

/// What is kept of the output, with another line.
pub open spec fn kept(output: Seq<char>, line: Seq<char>) -> Seq<char> {
    if encode_utf8(output).len() < MAX_KEPT_BYTES {
        output + line
    } else {
        output
    }
}

/// The exit code in the line that marks the end of the output; -1 where it is none.
pub open spec fn code_in(rest: Seq<char>) -> i32 {
    match digits::parsed_i32(text::trimmed(rest)) {
        Some(code) => code,
        None => -1i32,
    }
}

impl OutputReader {
    /// The beginning of the line that marks the end.
    pub closed spec fn sentinel(&self) -> Seq<char> {
        self.sentinel@
    }

    /// What is kept of the output.
    pub closed spec fn output(&self) -> Seq<char> {
        self.output@
    }

    /// The output of a command of which nothing was read.
    pub fn new(sentinel: String) -> (r: Self)
        ensures
            r.sentinel() == sentinel@,
            r.output() == Seq::<char>::empty(),
    {
        let output = String::new();
        assert(output@ =~= Seq::<char>::empty());
        OutputReader { sentinel, output }
    }

    /// Takes a line; gives the exit code where it marks the end.
    pub fn line(&mut self, line: &str) -> (r: Option<i32>)
        ensures
            final(self).sentinel() == old(self).sentinel(),
            match text::after_prefix(line@, old(self).sentinel()) {
                Some(rest) => r == Some(code_in(rest)) && final(self).output() == old(
                    self,
                ).output(),
                None => r is None && final(self).output() == kept(old(self).output(), line@),
            },
    {
        match text::strip_prefix(line, self.sentinel.as_str()) {
            Some(rest) => {
                let rest = text::trim(rest.as_str());
                match digits::parse_i32(rest.as_str()) {
                    Some(code) => Some(code),
                    None => Some(-1),
                }
            },
            None => {
                if self.output.as_str().as_bytes().len() < MAX_KEPT_BYTES {
                    self.output.append(line);
                }
                None
            },
        }
    }

    /// What was kept of the output.
    pub fn finish(self) -> (r: String)
        ensures
            r@ == self.output(),
    {
        self.output
    }
}

/// What came of a command.
pub enum ShellResult {
    /// The command ended.
    Finished { output: String, code: i32 },
    /// The shell failed, or could not be started.
    Broken { error: String },
    /// The command took longer than it may.
    TimedOut { seconds: u64 },
}

/// What is told of a command that ended: its output, cut, and its exit code where it
/// failed.
pub open spec fn finished_output(output: Seq<char>, code: i32) -> OutputView {
    let shown = tools::truncated(text::trimmed_end(output));
    if code == 0 {
        tools::fine(shown)
    } else if shown.len() == 0 {
        tools::failed("[exit: "@ + digits::signed_decimal(code as int) + "]"@)
    } else {
        tools::failed(shown + "\n[exit: "@ + digits::signed_decimal(code as int) + "]"@)
    }
}

/// What is told of a command.
pub open spec fn result_output(result: ShellResult) -> OutputView {
    match result {
        ShellResult::Finished { output, code } => finished_output(output@, code),
        ShellResult::Broken { error } => tools::failed("bash: "@ + error@),
        ShellResult::TimedOut { seconds } => tools::failed(
            "bash: timed out after "@ + digits::decimal(seconds as nat) + "s"@,
        ),
    }
}

/// What is told of a command, and whether the shell has to be replaced: it has, unless
/// the command ended.
pub fn shell_output(result: ShellResult) -> (r: (ToolOutput, bool))
    ensures
        r.0@ == result_output(result),
        r.1 == !(result is Finished),
{
    match result {
        ShellResult::Finished { output, code } => {
            let mut shown = tools::truncate(text::trim_end(output.as_str()));
            if code == 0 {
                return (ToolOutput::ok(shown), false);
            }
            if shown.as_str().is_empty() {
                shown = "[exit: ".to_owned();
            } else {
                shown.append("\n[exit: ");
            }
            shown.append(digits::signed_text(code as i64).as_str());
            shown.append("]");
            (ToolOutput::err(shown), false)
        },
        ShellResult::Broken { error } => {
            let mut message = "bash: ".to_owned();
            message.append(error.as_str());
            (ToolOutput::err(message), true)
        },
        ShellResult::TimedOut { seconds } => {
            let mut message = "bash: timed out after ".to_owned();
            message.append(digits::decimal_text(seconds).as_str());
            message.append("s");
            (ToolOutput::err(message), true)
        },
    }
}

/// What is kept of lines, one after the other.
pub open spec fn kept_of(lines: Seq<Seq<char>>) -> Seq<char>
    decreases lines.len(),
{
    if lines.len() == 0 {
        Seq::empty()
    } else {
        kept(kept_of(lines.drop_last()), lines.last())
    }
}

/// Lines one after the other.
pub open spec fn concatenated(lines: Seq<Seq<char>>) -> Seq<char>
    decreases lines.len(),
{
    if lines.len() == 0 {
        Seq::empty()
    } else {
        concatenated(lines.drop_last()) + lines.last()
    }
}

/// What is kept of a command's output is its lines as they came, as long as they are below
/// the number of bytes that are kept.
pub proof fn law_output_is_kept(lines: Seq<Seq<char>>)
    requires
        lines.len() > 0 ==> encode_utf8(concatenated(lines.drop_last())).len() < MAX_KEPT_BYTES,
    ensures
        kept_of(lines) == concatenated(lines),
    decreases lines.len(),
{
    if lines.len() > 0 {
        let before = lines.drop_last();
        if before.len() > 0 {
            lemma_bytes_grow(concatenated(before.drop_last()), before.last());
        }
        law_output_is_kept(before);
    }
}

/// An output that is no longer than what the model gets to see is kept whole, and told as
/// it is but for the white space at its end.
pub proof fn law_short_output_is_whole(lines: Seq<Seq<char>>, code: i32)
    requires
        concatenated(lines).len() <= tools::MAX_OUTPUT_CHARS,
    ensures
        kept_of(lines) == concatenated(lines),
        code == 0 ==> finished_output(kept_of(lines), code).content == text::trimmed_end(
            concatenated(lines),
        ),
    decreases lines.len(),
{
    if lines.len() > 0 {
        let before = lines.drop_last();
        law_short_output_is_whole(before, code);
        if lines.last().len() == 0 {
            assert(concatenated(before) + lines.last() =~= concatenated(before));
        } else {
            lemma_bytes_of_chars(concatenated(before));
        }
    }
    text::lemma_drop_trailing(concatenated(lines), text::spaces());
}

/// A character has at most four bytes.
proof fn lemma_bytes_of_chars(s: Seq<char>)
    ensures
        encode_utf8(s).len() <= 4 * s.len(),
    decreases s.len(),
{
    if s.len() > 0 {
        lemma_bytes_of_chars(s.drop_first());
    }
}

/// A longer text has no fewer bytes.
proof fn lemma_bytes_grow(a: Seq<char>, b: Seq<char>)
    ensures
        encode_utf8(a).len() <= encode_utf8(a + b).len(),
    decreases a.len(),
{
    reveal_with_fuel(encode_utf8, 2);
    if a.len() > 0 {
        lemma_bytes_grow(a.drop_first(), b);
        assert((a + b).drop_first() =~= a.drop_first() + b);
    }
}

/// A command is told to have failed exactly where its exit code says so.
pub proof fn law_exit_code_decides(output: Seq<char>, code: i32)
    ensures
        finished_output(output, code).is_error == (code != 0),
{
}

/// What is written to the shell runs the command, with its errors among its output and
/// nothing to read, unless it brings its own input, and prints the sentinel with the exit
/// code on a line of its own behind it.
pub proof fn law_script_runs_the_command(command: Seq<char>, sentinel: Seq<char>, i: int)
    ensures
        ({
            let s = script_of(command, sentinel);
            &&& text::occurs_at(command, "<<"@, i) ==> text::begins(
                s,
                "exec 2>&1\n"@ + command + "\n"@,
            )
            &&& (forall|k: int| !#[trigger] text::occurs_at(command, "<<"@, k)) ==> text::begins(
                s,
                "exec 2>&1\n"@ + command + " </dev/null\n"@,
            )
            &&& text::ends(s, "\nprintf '\\n"@ + sentinel + "%s\\n' \"$?\"\n"@)
        }),
{
    reveal_strlit("");
    reveal_strlit("\n");
    reveal_strlit(" </dev/null");
    reveal_strlit(" </dev/null\n");
    reveal_strlit("\nprintf '\\n");
    let s = script_of(command, sentinel);
    let tail = "\nprintf '\\n"@ + sentinel + "%s\\n' \"$?\"\n"@;
    assert(s.subrange(s.len() - tail.len(), s.len() as int) =~= tail);
    if text::has(command, "<<"@) {
        let head = "exec 2>&1\n"@ + command + "\n"@;
        assert(s.subrange(0, head.len() as int) =~= head);
    } else {
        let head = "exec 2>&1\n"@ + command + " </dev/null\n"@;
        assert(s.subrange(0, head.len() as int) =~= head);
    }
    if text::occurs_at(command, "<<"@, i) {
        assert(text::has(command, "<<"@));
    }
}

/// The exit code that the shell prints behind the sentinel is read, whatever it is; what is
/// no number counts as a failure.
pub proof fn law_exit_code_is_read(code: i32, rest: Seq<char>)
    ensures
        code_in(digits::signed_decimal(code as int)) == code,
        code_in(digits::signed_decimal(code as int).push('\n')) == code,
        text::blank(rest) ==> code_in(rest) == -1,
{
    let s = digits::signed_decimal(code as int);
    let n: nat = if code < 0 {
        (-code) as nat
    } else {
        code as nat
    };
    let d = digits::decimal(n);
    digits::lemma_decimal(n);
    digits::law_numbers_are_read_back(code as int, 0);
    assert(digits::is_digit(d[0]) && digits::is_digit(d[d.len() - 1]));
    assert(s.last() == d[d.len() - 1]);
    assert(s[0] == '-' || s[0] == d[0]);
    text::lemma_trimmed_edges(s);
    text::lemma_trimmed_push_space(s, '\n');
    if text::blank(rest) {
        digits::law_other_texts_are_refused(text::trimmed(rest), 0);
    }
}

/// What a command printed is shown as it was, but for white space behind it; where it
/// failed its exit code is told at the end.
pub proof fn law_result_is_shown(output: Seq<char>, code: i32)
    requires
        output.len() <= 20_000,
    ensures
        ({
            let r = finished_output(output, code);
            let shown = text::trimmed_end(output);
            let told = "[exit: "@ + digits::signed_decimal(code as int) + "]"@;
            &&& r.is_error == (code != 0)
            &&& code == 0 ==> r.content == shown
            &&& code != 0 ==> text::begins(r.content, shown) && text::ends(r.content, told)
            &&& code != 0 && shown.len() == 0 ==> r.content == told
            &&& code != 0 && shown.len() > 0 ==> r.content.len() == shown.len() + 1 + told.len()
        }),
{
    text::lemma_drop_trailing(output, text::spaces());
    let r = finished_output(output, code);
    let shown = text::trimmed_end(output);
    let number = digits::signed_decimal(code as int);
    let told = "[exit: "@ + number + "]"@;
    reveal_strlit("[exit: ");
    reveal_strlit("\n[exit: ");
    reveal_strlit("]");
    assert(tools::truncated(shown) == shown);
    if code != 0 {
        assert(r.content.subrange(0, shown.len() as int) =~= shown);
        assert(r.content.subrange(r.content.len() - told.len(), r.content.len() as int) =~= told);
    }
}

/// A shell that broke, or that took too long, is told as an error, with what is known of
/// it.
pub proof fn law_broken_shell_is_told(result: ShellResult)
    ensures
        result matches ShellResult::Broken { error } ==> result_output(result).is_error
            && text::ends(result_output(result).content, error@),
        result matches ShellResult::TimedOut { seconds } ==> result_output(result).is_error
            && text::ends(
            result_output(result).content,
            digits::decimal(seconds as nat) + "s"@,
        ),
        result matches ShellResult::Finished { output, code } ==> result_output(result)
            == finished_output(output@, code),
{
    match result {
        ShellResult::Broken { error } => {
            let s = result_output(result).content;
            assert(s.subrange(s.len() - error@.len(), s.len() as int) =~= error@);
        },
        ShellResult::TimedOut { seconds } => {
            let s = result_output(result).content;
            let tail = digits::decimal(seconds as nat) + "s"@;
            assert(s.subrange(s.len() - tail.len(), s.len() as int) =~= tail);
        },
        _ => {},
    }
}

/// Lines one behind the other are all of them, in their order.
pub proof fn law_lines_are_concatenated(lines: Seq<Seq<char>>)
    ensures
        concatenated(lines) == lines.flatten(),
    decreases lines.len(),
{
    lines.lemma_flatten_and_flatten_alt_are_equivalent();
    if lines.len() > 0 {
        law_lines_are_concatenated(lines.drop_last());
        lines.drop_last().lemma_flatten_and_flatten_alt_are_equivalent();
    }
}

/// Output is kept up to a bound: a line that comes when less is kept is kept whole, and one
/// that comes later is dropped.
pub proof fn law_output_stops_at_the_bound(output: Seq<char>, line: Seq<char>)
    ensures
        encode_utf8(output).len() < 80_000 ==> kept(output, line) == output + line,
        encode_utf8(output).len() >= 80_000 ==> kept(output, line) == output,
{
}

} // verus!
