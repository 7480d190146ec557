//! Server-sent events: the events of a stream of bytes.
//!
//! An event ends with an empty line. Its lines that begin with `data:` make up its
//! payload.
use vstd::prelude::*;
use vstd::string::*;
use vstd::utf8::*;

use crate::text;

verus! {

/// The text that `String::from_utf8_lossy` makes of bytes.
pub uninterp spec fn lossy(bytes: Seq<u8>) -> Seq<char>;

/// `String::from_utf8_lossy`: bytes that are UTF-8 are decoded; what stands for other
/// bytes is left to the name.
#[verifier::external_body]
pub(crate) fn decode_lossy(bytes: &Vec<u8>) -> (r: String)
    ensures
        r@ == lossy(bytes@),
        valid_utf8(bytes@) ==> r@ == decode_utf8(bytes@),
{
    String::from_utf8_lossy(bytes).into_owned()
}

// ---------------------------------------------------------------------------
// Payloads
// ---------------------------------------------------------------------------

/// The payload in a line, if it holds one: what follows `data:` and one blank.
pub open spec fn line_payload(line: Seq<char>) -> Option<Seq<char>> {
    match text::after_prefix(text::without_cr(line), "data:"@) {
        Some(rest) => match text::after_prefix(rest, " "@) {
            Some(p) => Some(p),
            None => Some(rest),
        },
        None => None,
    }
}

/// The payloads in lines.
pub open spec fn line_payloads(lines: Seq<Seq<char>>) -> Seq<Seq<char>>
    decreases lines.len(),
{
    if lines.len() == 0 {
        Seq::empty()
    } else {
        let before = line_payloads(lines.drop_last());
        match line_payload(lines.last()) {
            Some(p) => before.push(p),
            None => before,
        }
    }
}

/// The payload of an event, if it has one.
pub open spec fn payload(event: Seq<char>) -> Option<Seq<char>> {
    let parts = line_payloads(text::split(event, text::newline()));
    if parts.len() == 0 {
        None
    } else {
        Some(text::joined(parts, seq!['\n']))
    }
}

/// The payload of an event, if it has one.
pub fn event_payload(event: &str) -> (r: Option<String>)
    ensures
        text::opt_text(r) == payload(event@),
{
    let set: Vec<char> = vec!['\n'];
    assert(set@ =~= seq!['\n']);
    let lines = text::split_among(event, &set);
    let ghost t = text::texts(lines@);
    let mut data: Vec<String> = Vec::new();
    let mut i: usize = 0;
    assert(t.take(0) =~= Seq::<Seq<char>>::empty());
    assert(text::texts(data@) =~= line_payloads(t.take(0)));
    while i < lines.len()
        invariant
            i <= lines@.len(),
            t == text::texts(lines@),
            text::texts(data@) == line_payloads(t.take(i as int)),
        decreases lines@.len() - i,
    {
        assert(t.take(i + 1).drop_last() =~= t.take(i as int));
        assert(t.take(i + 1).last() == lines@[i as int]@);
        let line = text::strip_cr(lines[i].clone());
        if let Some(rest) = text::strip_prefix(line.as_str(), "data:") {
            let p = match text::strip_prefix(rest.as_str(), " ") {
                Some(p) => p,
                None => rest,
            };
            proof {
                text::lemma_texts_push(data@, p);
            }
            data.push(p);
        }
        i += 1;
    }
    assert(t.take(i as int) =~= t);
    if data.len() == 0 {
        None
    } else {
        proof {
            reveal_strlit("\n");
            assert("\n"@ =~= seq!['\n']);
        }
        Some(text::join(&data, "\n"))
    }
}

// ---------------------------------------------------------------------------
// Events
// ---------------------------------------------------------------------------

/// Whether two newlines stand at `i`.
pub open spec fn ends_lf(b: Seq<u8>, i: int) -> bool {
    0 <= i && i + 1 < b.len() && b[i] == 10 && b[i + 1] == 10
}

/// Whether two newlines, each after a carriage return, stand at `i`.
pub open spec fn ends_crlf(b: Seq<u8>, i: int) -> bool {
    0 <= i && i + 3 < b.len() && b[i] == 13 && b[i + 1] == 10 && b[i + 2] == 13 && b[i + 3] == 10
}

/// Whether an event ends at `i`.
pub open spec fn ends_at(b: Seq<u8>, i: int) -> bool {
    ends_lf(b, i) || ends_crlf(b, i)
}

/// The length of what ends an event at `i`.
pub open spec fn end_len(b: Seq<u8>, i: int) -> int {
    if ends_lf(b, i) {
        2
    } else {
        4
    }
}

/// Where, from `i` on, the first event ends.
pub open spec fn end_from(b: Seq<u8>, i: int) -> Option<int>
    decreases b.len() - i,
{
    if i >= b.len() {
        None
    } else if ends_at(b, i) {
        Some(i)
    } else {
        end_from(b, i + 1)
    }
}

/// Where the first event in `b` ends, if one does.
pub open spec fn first_end(b: Seq<u8>) -> Option<int> {
    end_from(b, 0)
}

/// What `end_from` returns.
pub proof fn lemma_end_from(b: Seq<u8>, i: int)
    requires
        0 <= i,
    ensures
        match end_from(b, i) {
            Some(k) => i <= k < b.len() && ends_at(b, k) && k + end_len(b, k) <= b.len()
                && forall|j: int| i <= j < k ==> !#[trigger] ends_at(b, j),
            None => forall|j: int| i <= j ==> !#[trigger] ends_at(b, j),
        },
    decreases b.len() - i,
{
    if i < b.len() && !ends_at(b, i) {
        lemma_end_from(b, i + 1);
    }
}

/// The end of the first event is where an event ends and none does before.
pub proof fn lemma_first_end_is(b: Seq<u8>, k: int)
    requires
        0 <= k,
        ends_at(b, k),
        forall|j: int| 0 <= j < k ==> !#[trigger] ends_at(b, j),
    ensures
        first_end(b) == Some(k),
{
    lemma_end_from(b, 0);
    match first_end(b) {
        Some(i) => {
            if i < k {
                assert(!ends_at(b, i));
            }
        },
        None => {
            assert(!ends_at(b, k));
        },
    }
}

/// The bytes after the first event.
pub open spec fn after_first(b: Seq<u8>) -> Seq<u8> {
    match first_end(b) {
        Some(i) => b.skip(i + end_len(b, i)),
        None => b,
    }
}

/// The payload of the first event in `b`, if there is one and it has one.
pub open spec fn first_payload(b: Seq<u8>) -> Option<Seq<char>> {
    match first_end(b) {
        Some(i) => payload(lossy(b.take(i))),
        None => None,
    }
}

/// Bytes that come later do not move the end of an event that is there.
pub proof fn lemma_end_stays(b: Seq<u8>, more: Seq<u8>)
    requires
        first_end(b) is Some,
    ensures
        first_end(b + more) == first_end(b),
        end_len(b + more, first_end(b)->0) == end_len(b, first_end(b)->0),
        (b + more).take(first_end(b)->0) == b.take(first_end(b)->0),
        after_first(b + more) == after_first(b) + more,
{
    lemma_end_from(b, 0);
    let k = first_end(b)->0;
    let c = b + more;
    assert forall|j: int| 0 <= j < k implies !#[trigger] ends_at(c, j) by {
        assert(!ends_at(b, j));
        if ends_crlf(c, j) && j + 3 >= b.len() {
            // Then an event would end earlier in `b` than it does.
            assert(k == j + 1 || k == j + 2);
        }
    }
    assert(ends_at(c, k));
    lemma_first_end_is(c, k);
    assert(c.take(k) =~= b.take(k));
    assert(c.skip(k + end_len(c, k)) =~= b.skip(k + end_len(b, k)) + more);
}

/// Taking an event leaves fewer bytes.
pub proof fn lemma_fewer(b: Seq<u8>)
    ensures
        first_end(b) is Some ==> after_first(b).len() < b.len(),
{
    lemma_end_from(b, 0);
}

/// The payload of the first event in `b` that has one. Events without data, such as the
/// comments by which a server keeps a connection open, are passed over.
pub open spec fn next_payload(b: Seq<u8>) -> Option<Seq<char>>
    decreases b.len(),
{
    proof {
        lemma_fewer(b);
    }
    match first_end(b) {
        Some(_) => match first_payload(b) {
            Some(p) => Some(p),
            None => next_payload(after_first(b)),
        },
        None => None,
    }
}

/// The bytes after the first event in `b` that has a payload, or, where none has, those
/// that belong to no event yet.
pub open spec fn after_next(b: Seq<u8>) -> Seq<u8>
    decreases b.len(),
{
    proof {
        lemma_fewer(b);
    }
    match first_end(b) {
        Some(_) => match first_payload(b) {
            Some(_) => after_first(b),
            None => after_next(after_first(b)),
        },
        None => b,
    }
}

/// Where no payload is found, no event is left; where one is, fewer bytes are.
pub proof fn lemma_next(b: Seq<u8>)
    ensures
        next_payload(b) is None ==> first_end(after_next(b)) is None,
        next_payload(b) is Some ==> after_next(b).len() < b.len(),
        after_next(b).len() <= b.len(),
    decreases b.len(),
{
    lemma_fewer(b);
    if first_end(b) is Some && first_payload(b) is None {
        lemma_next(after_first(b));
    }
}

/// Takes the first event that ends in `b` off its front, if one does; gives its text.
fn take_event(buf: &mut Vec<u8>) -> (r: Option<String>)
    ensures
        final(buf)@ == after_first(old(buf)@),
        match r {
            Some(event) => first_end(old(buf)@) matches Some(i) && event@ == lossy(
                old(buf)@.take(i),
            ),
            None => first_end(old(buf)@) is None,
        },
{
    let ghost b = buf@;
    let n: usize = buf.len();
    let mut i: usize = 0;
    let mut len: usize = 0;
    while i < n && len == 0
        invariant
            n == buf@.len(),
            b == buf@,
            i <= n,
            len == 0 ==> first_end(b) == end_from(b, i as int),
            len > 0 ==> first_end(b) == Some(i as int) && len == end_len(b, i as int),
        decreases n - i + (if len == 0 {
            1int
        } else {
            0
        }),
    {
        let left: usize = n - i;
        if left >= 2 && buf[i] == 10 && buf[i + 1] == 10 {
            len = 2;
        } else if left >= 4 && buf[i] == 13 && buf[i + 1] == 10 && buf[i + 2] == 13 && buf[i + 3]
            == 10 {
            len = 4;
        } else {
            i += 1;
        }
    }
    if len == 0 {
        return None;
    }
    proof {
        lemma_end_from(b, 0);
    }
    let mut rest = buf.split_off(i + len);
    buf.truncate(i);
    assert(buf@ =~= b.take(i as int));
    let event = decode_lossy(&*buf);
    std::mem::swap(buf, &mut rest);
    assert(buf@ =~= b.skip(i + len));
    Some(event)
}

/// Takes the first event that has a payload off the front of `buf`, with the events
/// without data before it, and gives its payload. Nothing is given where no such event
/// has ended yet; then no event that has ended is left in `buf`.
pub fn take_first_event(buf: &mut Vec<u8>) -> (r: Option<String>)
    ensures
        text::opt_text(r) == next_payload(old(buf)@),
        final(buf)@ == after_next(old(buf)@),
        r is None ==> first_end(final(buf)@) is None,
{
    let ghost b = buf@;
    proof {
        lemma_next(b);
        lemma_fewer(b);
    }
    loop
        invariant
            b == old(buf)@,
            next_payload(b) == next_payload(buf@),
            after_next(b) == after_next(buf@),
            next_payload(b) is None ==> first_end(after_next(b)) is None,
        decreases buf@.len(),
    {
        proof {
            lemma_fewer(buf@);
        }
        match take_event(buf) {
            None => {
                return None;
            },
            Some(event) => {
                if let Some(payload) = event_payload(event.as_str()) {
                    return Some(payload);
                }
            },
        }
    }
}

// ---------------------------------------------------------------------------
// Laws
// ---------------------------------------------------------------------------

/// What a line of data holds is read back: what stands behind `data:`, with or without one
/// blank before it and with or without a carriage return behind it. A line of another kind
/// holds nothing.
pub proof fn law_data_is_read(x: Seq<char>, line: Seq<char>)
    requires
        x.len() > 0 ==> x.last() != '\r',
    ensures
        line_payload("data: "@ + x) == Some(x),
        line_payload(("data: "@ + x).push('\r')) == Some(x),
        !(x.len() > 0 && x[0] == ' ') ==> line_payload("data:"@ + x) == Some(x),
        !(x.len() > 0 && x[0] == ' ') ==> line_payload(("data:"@ + x).push('\r')) == Some(x),
        !text::begins(line, "data:"@) ==> line_payload(line) is None,
{
    lemma_data_behind_a_blank(x);
    if !(x.len() > 0 && x[0] == ' ') {
        lemma_data_at_once(x);
    }
    let d = "data:"@;
    let w = text::without_cr(line);
    if text::begins(w, d) {
        assert(line.subrange(0, d.len() as int) =~= w.subrange(0, d.len() as int));
        assert(text::begins(line, d));
    }
}

/// A carriage return at the end of a line is dropped, and nothing else is.
proof fn lemma_without_cr(l: Seq<char>)
    requires
        l.len() > 0,
        l.last() != '\r',
    ensures
        text::without_cr(l) == l,
        text::without_cr(l.push('\r')) == l,
{
    assert(l.push('\r').drop_last() =~= l);
}

/// Data behind a blank.
proof fn lemma_data_behind_a_blank(x: Seq<char>)
    requires
        x.len() > 0 ==> x.last() != '\r',
    ensures
        line_payload("data: "@ + x) == Some(x),
        line_payload(("data: "@ + x).push('\r')) == Some(x),
{
    reveal_strlit("data: ");
    reveal_strlit("data:");
    reveal_strlit(" ");
    let d = "data:"@;
    let b = " "@;
    let l = "data: "@ + x;
    assert(d.len() == 5 && "data: "@.len() == 6 && b.len() == 1);
    assert("data: "@[5] == ' ');
    assert(l.last() == if x.len() > 0 {
        x.last()
    } else {
        ' '
    });
    lemma_without_cr(l);
    assert(l.subrange(0, d.len() as int) =~= d);
    assert(text::begins(l, d));
    let rest = l.skip(d.len() as int);
    assert(rest.subrange(0, b.len() as int) =~= b);
    assert(text::begins(rest, b));
    assert(rest.skip(b.len() as int) =~= x);
}

/// Data without a blank before it.
proof fn lemma_data_at_once(x: Seq<char>)
    requires
        x.len() > 0 ==> x.last() != '\r' && x[0] != ' ',
    ensures
        line_payload("data:"@ + x) == Some(x),
        line_payload(("data:"@ + x).push('\r')) == Some(x),
{
    reveal_strlit("data:");
    reveal_strlit(" ");
    let d = "data:"@;
    let b = " "@;
    let l = d + x;
    assert(d.len() == 5 && b.len() == 1);
    assert(d[4] == ':');
    assert(l.last() == if x.len() > 0 {
        x.last()
    } else {
        ':'
    });
    lemma_without_cr(l);
    assert(l.subrange(0, d.len() as int) =~= d);
    assert(text::begins(l, d));
    assert(l.skip(d.len() as int) =~= x);
    if text::begins(x, b) {
        assert(x.subrange(0, b.len() as int)[0] == x[0]);
        assert(b[0] == ' ');
    }
}

/// The payloads in lines are those of the lines that have one, in their order.
pub proof fn law_payloads_keep_their_order(lines: Seq<Seq<char>>)
    ensures
        line_payloads(lines) == lines.filter(
            |l: Seq<char>| line_payload(l) is Some,
        ).map_values(|l: Seq<char>| line_payload(l)->0),
    decreases lines.len(),
{
    let p = |l: Seq<char>| line_payload(l) is Some;
    let f = |l: Seq<char>| line_payload(l)->0;
    reveal(Seq::filter);
    if lines.len() > 0 {
        let front = lines.drop_last();
        law_payloads_keep_their_order(front);
        if p(lines.last()) {
            assert(front.filter(p).push(lines.last()).map_values(f) =~= front.filter(
                p,
            ).map_values(f).push(f(lines.last())));
        }
    } else {
        assert(lines.filter(p).map_values(f) =~= Seq::<Seq<char>>::empty());
    }
}

/// An event's payload is what its lines of data hold, joined by newlines; one without such
/// a line has none.
pub proof fn law_payload_joins_the_data(lines: Seq<Seq<char>>)
    requires
        lines.len() > 0,
        forall|i: int| 0 <= i < lines.len() ==> !(#[trigger] lines[i]).contains('\n'),
    ensures
        ({
            let event = text::joined(lines, seq!['\n']);
            let parts = lines.filter(|l: Seq<char>| line_payload(l) is Some).map_values(
                |l: Seq<char>| line_payload(l)->0,
            );
            &&& parts.len() == 0 ==> payload(event) is None
            &&& parts.len() > 0 ==> payload(event) == Some(text::joined(parts, seq!['\n']))
        }),
{
    text::lemma_split_joined(lines);
    law_payloads_keep_their_order(lines);
}

/// Whether an event ends nowhere in `b`, nor with the next newline.
pub open spec fn unended(b: Seq<u8>) -> bool {
    &&& b.len() > 0 ==> b.last() != 10 && b.last() != 13
    &&& forall|j: int| 0 <= j < b.len() - 1 ==> !(#[trigger] b[j] == 10 && b[j + 1] == 10)
    &&& forall|j: int|
        0 <= j < b.len() - 3 ==> !(#[trigger] b[j] == 13 && b[j + 1] == 10 && b[j + 2] == 13 && b[j
            + 3] == 10)
}

/// An empty line, ended in either way, ends an event: what stands before it is the event,
/// and what comes after it is left for later.
pub proof fn law_empty_line_ends_an_event(b: Seq<u8>, rest: Seq<u8>, crlf: bool)
    requires
        unended(b),
    ensures
        ({
            let end: Seq<u8> = if crlf {
                seq![13u8, 10, 13, 10]
            } else {
                seq![10u8, 10]
            };
            let all = b + end + rest;
            &&& first_end(all) == Some(b.len() as int)
            &&& first_payload(all) == payload(lossy(b))
            &&& after_first(all) == rest
            &&& payload(lossy(b)) is Some ==> next_payload(all) == payload(lossy(b)) && after_next(
                all,
            ) == rest
            &&& payload(lossy(b)) is None ==> next_payload(all) == next_payload(rest) && after_next(
                all,
            ) == after_next(rest)
        }),
{
    let end: Seq<u8> = if crlf {
        seq![13u8, 10, 13, 10]
    } else {
        seq![10u8, 10]
    };
    let all = b + end + rest;
    let n = b.len() as int;
    assert(all[n] == end[0] && all[n + 1] == end[1]);
    if crlf {
        assert(all[n + 2] == end[2] && all[n + 3] == end[3]);
    }
    assert(ends_at(all, n));
    assert forall|j: int| 0 <= j < n implies !#[trigger] ends_at(all, j) by {
        assert(all[j] == b[j]);
        if j + 1 < n {
            assert(all[j + 1] == b[j + 1]);
        }
        if j + 2 < n {
            assert(all[j + 2] == b[j + 2]);
        }
        if j + 3 < n {
            assert(all[j + 3] == b[j + 3]);
        }
    }
    lemma_first_end_is(all, n);
    assert(all.take(n) =~= b);
    assert(all.skip(n + end_len(all, n)) =~= rest);
    lemma_fewer(all);
}

/// Bytes in which no event has ended yet are kept as they are, and nothing is given of
/// them.
pub proof fn law_unended_event_is_kept(b: Seq<u8>)
    requires
        forall|j: int| 0 <= j < b.len() - 1 ==> !(#[trigger] b[j] == 10 && b[j + 1] == 10),
        forall|j: int|
            0 <= j < b.len() - 3 ==> !(#[trigger] b[j] == 13 && b[j + 1] == 10 && b[j + 2] == 13
                && b[j + 3] == 10),
    ensures
        first_end(b) is None,
        next_payload(b) is None,
        after_next(b) == b,
{
    lemma_end_from(b, 0);
    if let Some(k) = first_end(b) {
        assert(b[k] == b[k]);
    }
}

} // verus!
