//! Text as a sequence of characters.
//!
//! The rest of the crate states what it does to text with the spec functions of
//! this module: trimming, splitting, joining, searching and replacing, each as a
//! function on `Seq<char>`. Beside each stands the executable function.
use vstd::prelude::*;
use vstd::string::*;

verus! {

/// `String::push` appends the given `char` to the end of the string.
pub assume_specification[ String::push ](s: &mut String, ch: char)
    ensures
        final(s)@ == old(s)@.push(ch),
;

// ---------------------------------------------------------------------------
// Characters
// ---------------------------------------------------------------------------

/// The characters with the Unicode `White_Space` property.
pub open spec fn is_space(c: char) -> bool {
    let u = c as u32;
    ||| 0x09 <= u <= 0x0d
    ||| u == 0x20
    ||| u == 0x85
    ||| u == 0xa0
    ||| u == 0x1680
    ||| 0x2000 <= u <= 0x200a
    ||| u == 0x2028
    ||| u == 0x2029
    ||| u == 0x202f
    ||| u == 0x205f
    ||| u == 0x3000
}

/// Whether `c` is white space.
pub fn space(c: char) -> (r: bool)
    ensures
        r == is_space(c),
{
    let u: u32 = c as u32;
    (0x09 <= u && u <= 0x0d) || u == 0x20 || u == 0x85 || u == 0xa0 || u == 0x1680 || (0x2000 <= u
        && u <= 0x200a) || u == 0x2028 || u == 0x2029 || u == 0x202f || u == 0x205f || u == 0x3000
}

/// `c` with an ASCII capital made small.
pub open spec fn lower_char(c: char) -> char {
    if 'A' <= c && c <= 'Z' {
        ((c as u32) + 32) as char
    } else {
        c
    }
}

/// Makes an ASCII capital small.
pub fn ascii_lower(c: char) -> (r: char)
    ensures
        r == lower_char(c),
{
    if 'A' <= c && c <= 'Z' {
        ((c as u8) + 32) as char
    } else {
        c
    }
}

/// Whether `c` is one of `set`.
pub open spec fn among(set: Seq<char>) -> spec_fn(char) -> bool {
    |c: char| set.contains(c)
}

/// Whether `c` is one of `set`.
pub fn is_among(c: char, set: &Vec<char>) -> (r: bool)
    ensures
        r == among(set@)(c),
{
    let mut i: usize = 0;
    while i < set.len()
        invariant
            i <= set@.len(),
            forall|j: int| 0 <= j < i ==> set@[j] != c,
        decreases set@.len() - i,
    {
        if set[i] == c {
            assert(set@.contains(c));
            return true;
        }
        i += 1;
    }
    assert(!set@.contains(c));
    false
}

// ---------------------------------------------------------------------------
// Views and conversions
// ---------------------------------------------------------------------------

/// The texts of a sequence of strings.
pub open spec fn texts(v: Seq<String>) -> Seq<Seq<char>> {
    Seq::new(v.len(), |i: int| v[i]@)
}

/// The text of an optional string.
pub open spec fn opt_text(v: Option<String>) -> Option<Seq<char>> {
    match v {
        Some(s) => Some(s@),
        None => None,
    }
}

/// The text of an optional string slice.
pub open spec fn opt_str(v: Option<&str>) -> Option<Seq<char>> {
    match v {
        Some(s) => Some(s@),
        None => None,
    }
}

/// Pushing a string pushes its text.
pub proof fn lemma_texts_push(v: Seq<String>, s: String)
    ensures
        texts(v.push(s)) == texts(v).push(s@),
{
    assert(texts(v.push(s)) =~= texts(v).push(s@));
}

/// The characters of `s`.
pub fn chars_of(s: &str) -> (r: Vec<char>)
    ensures
        r@ == s@,
{
    let mut out: Vec<char> = Vec::new();
    for c in it: s.chars()
        invariant
            out@ == it.seq().take(it.index()),
            it.seq() == s@,
    {
        out.push(c);
    }
    out
}

/// The string of the characters `from..to` of `v`.
pub fn substring(v: &Vec<char>, from: usize, to: usize) -> (r: String)
    requires
        from <= to <= v@.len(),
    ensures
        r@ == v@.subrange(from as int, to as int),
{
    let mut out = String::new();
    let mut i: usize = from;
    while i < to
        invariant
            from <= i <= to <= v@.len(),
            out@ == v@.subrange(from as int, i as int),
        decreases to - i,
    {
        out.push(v[i]);
        i += 1;
        assert(v@.subrange(from as int, i as int) =~= v@.subrange(from as int, i - 1).push(
            v@[i - 1],
        ));
    }
    out
}

/// The string of all the characters of `v`.
pub fn string_of(v: &Vec<char>) -> (r: String)
    ensures
        r@ == v@,
{
    let r = substring(v, 0, v.len());
    assert(v@.subrange(0, v@.len() as int) =~= v@);
    r
}

/// Whether two texts are the same.
pub fn same(a: &str, b: &str) -> (r: bool)
    ensures
        r == (a@ == b@),
{
    a.to_owned() == b.to_owned()
}

/// A copy of an optional string.
pub fn copy_opt(v: &Option<String>) -> (r: Option<String>)
    ensures
        opt_text(r) == opt_text(*v),
{
    match v {
        Some(s) => Some(s.clone()),
        None => None,
    }
}

// ---------------------------------------------------------------------------
// Trimming
// ---------------------------------------------------------------------------

/// `s` without the leading characters that satisfy `p`.
pub open spec fn drop_leading(s: Seq<char>, p: spec_fn(char) -> bool) -> Seq<char>
    decreases s.len(),
{
    if s.len() > 0 && p(s[0]) {
        drop_leading(s.drop_first(), p)
    } else {
        s
    }
}

/// `s` without the trailing characters that satisfy `p`.
pub open spec fn drop_trailing(s: Seq<char>, p: spec_fn(char) -> bool) -> Seq<char>
    decreases s.len(),
{
    if s.len() > 0 && p(s.last()) {
        drop_trailing(s.drop_last(), p)
    } else {
        s
    }
}

/// White space as a predicate.
pub open spec fn spaces() -> spec_fn(char) -> bool {
    |c: char| is_space(c)
}

/// `s` without trailing white space.
pub open spec fn trimmed_end(s: Seq<char>) -> Seq<char> {
    drop_trailing(s, spaces())
}

/// `s` without leading and trailing white space.
pub open spec fn trimmed(s: Seq<char>) -> Seq<char> {
    drop_trailing(drop_leading(s, spaces()), spaces())
}

/// Whether `s` is white space only.
pub open spec fn blank(s: Seq<char>) -> bool {
    trimmed(s).len() == 0
}

/// What is dropped at the front is a run of characters that satisfy `p`, and
/// the next one does not.
pub proof fn lemma_drop_leading(s: Seq<char>, p: spec_fn(char) -> bool)
    ensures
        drop_leading(s, p).len() <= s.len(),
        drop_leading(s, p) == s.skip(s.len() - drop_leading(s, p).len()),
        forall|i: int| 0 <= i < s.len() - drop_leading(s, p).len() ==> p(#[trigger] s[i]),
        drop_leading(s, p).len() > 0 ==> !p(drop_leading(s, p)[0]),
    decreases s.len(),
{
    if s.len() > 0 && p(s[0]) {
        let t = s.drop_first();
        lemma_drop_leading(t, p);
        let n = t.len() - drop_leading(t, p).len();
        assert(t.skip(n) =~= s.skip(n + 1));
        assert forall|i: int| 0 <= i < n + 1 implies p(#[trigger] s[i]) by {
            if i > 0 {
                assert(p(t[i - 1]));
            }
        }
    } else {
        assert(s.skip(0) =~= s);
    }
}

/// What is dropped at the back is a run of characters that satisfy `p`, and the
/// one before it does not.
pub proof fn lemma_drop_trailing(s: Seq<char>, p: spec_fn(char) -> bool)
    ensures
        drop_trailing(s, p).len() <= s.len(),
        drop_trailing(s, p) == s.take(drop_trailing(s, p).len() as int),
        forall|i: int| drop_trailing(s, p).len() <= i < s.len() ==> p(#[trigger] s[i]),
        drop_trailing(s, p).len() > 0 ==> !p(drop_trailing(s, p).last()),
    decreases s.len(),
{
    if s.len() > 0 && p(s.last()) {
        let t = s.drop_last();
        lemma_drop_trailing(t, p);
        let n = drop_trailing(t, p).len() as int;
        assert(t.take(n) =~= s.take(n));
        assert forall|i: int| n <= i < s.len() implies p(#[trigger] s[i]) by {
            if i < t.len() {
                assert(p(t[i]));
            }
        }
    } else {
        assert(s.take(s.len() as int) =~= s);
    }
}

/// The end of what is left of `v[from..]` once trailing white space is gone.
fn end_of_text(v: &Vec<char>, from: usize) -> (r: usize)
    requires
        from <= v@.len(),
    ensures
        from <= r <= v@.len(),
        v@.subrange(from as int, r as int) == trimmed_end(
            v@.subrange(from as int, v@.len() as int),
        ),
{
    let mut j: usize = v.len();
    while j > from && space(v[j - 1])
        invariant
            from <= j <= v@.len(),
            trimmed_end(v@.subrange(from as int, v@.len() as int)) == trimmed_end(
                v@.subrange(from as int, j as int),
            ),
        decreases j,
    {
        let ghost s = v@.subrange(from as int, j as int);
        assert(s.drop_last() =~= v@.subrange(from as int, j - 1));
        assert(s.last() == v@[j - 1]);
        j -= 1;
    }
    proof {
        let s = v@.subrange(from as int, j as int);
        if s.len() > 0 {
            assert(s.last() == v@[j - 1]);
        }
    }
    j
}

/// `s` without leading and trailing white space.
pub fn trim(s: &str) -> (r: String)
    ensures
        r@ == trimmed(s@),
{
    let v = chars_of(s);
    let mut i: usize = 0;
    assert(v@.skip(0) =~= v@);
    while i < v.len() && space(v[i])
        invariant
            i <= v@.len(),
            drop_leading(v@, spaces()) == drop_leading(v@.skip(i as int), spaces()),
        decreases v@.len() - i,
    {
        let ghost t = v@.skip(i as int);
        assert(t[0] == v@[i as int]);
        assert(t.drop_first() =~= v@.skip(i + 1));
        i += 1;
    }
    proof {
        let t = v@.skip(i as int);
        if t.len() > 0 {
            assert(t[0] == v@[i as int]);
        }
        assert(t =~= v@.subrange(i as int, v@.len() as int));
    }
    let j = end_of_text(&v, i);
    substring(&v, i, j)
}

/// `s` without trailing white space.
pub fn trim_end(s: &str) -> (r: String)
    ensures
        r@ == trimmed_end(s@),
{
    let v = chars_of(s);
    assert(v@.subrange(0, v@.len() as int) =~= v@);
    let j = end_of_text(&v, 0);
    substring(&v, 0, j)
}

/// Whether `s` is white space only.
pub fn is_blank(s: &str) -> (r: bool)
    ensures
        r == blank(s@),
{
    trim(s).as_str().is_empty()
}

/// `s` without the trailing characters `c`.
pub fn trim_end_char(s: &str, c: char) -> (r: String)
    ensures
        r@ == drop_trailing(s@, |x: char| x == c),
{
    let v = chars_of(s);
    let mut j: usize = v.len();
    let ghost p = |x: char| x == c;
    assert(v@.take(v@.len() as int) =~= v@);
    while j > 0 && v[j - 1] == c
        invariant
            j <= v@.len(),
            p == (|x: char| x == c),
            drop_trailing(v@, p) == drop_trailing(v@.take(j as int), p),
        decreases j,
    {
        let ghost t = v@.take(j as int);
        assert(t.drop_last() =~= v@.take(j - 1));
        assert(t.last() == v@[j - 1]);
        j -= 1;
    }
    proof {
        let t = v@.take(j as int);
        if t.len() > 0 {
            assert(t.last() == v@[j - 1]);
        }
        assert(t =~= v@.subrange(0, j as int));
    }
    substring(&v, 0, j)
}

/// `s` without the leading characters of `set`.
pub fn trim_start_among(s: &str, set: &Vec<char>) -> (r: String)
    ensures
        r@ == drop_leading(s@, among(set@)),
{
    let v = chars_of(s);
    let mut i: usize = 0;
    let ghost p = among(set@);
    assert(v@.skip(0) =~= v@);
    while i < v.len() && is_among(v[i], set)
        invariant
            i <= v@.len(),
            p == among(set@),
            drop_leading(v@, p) == drop_leading(v@.skip(i as int), p),
        decreases v@.len() - i,
    {
        let ghost t = v@.skip(i as int);
        assert(t[0] == v@[i as int]);
        assert(t.drop_first() =~= v@.skip(i + 1));
        i += 1;
    }
    proof {
        let t = v@.skip(i as int);
        if t.len() > 0 {
            assert(t[0] == v@[i as int]);
        }
        assert(t =~= v@.subrange(i as int, v@.len() as int));
    }
    substring(&v, i, v.len())
}

// ---------------------------------------------------------------------------
// Case
// ---------------------------------------------------------------------------

/// `s` with the ASCII capitals made small.
pub open spec fn lower(s: Seq<char>) -> Seq<char> {
    Seq::new(s.len(), |i: int| lower_char(s[i]))
}

/// `s` with the ASCII capitals made small.
pub fn to_lower(s: &str) -> (r: String)
    ensures
        r@ == lower(s@),
{
    let v = chars_of(s);
    let mut out = String::new();
    let mut i: usize = 0;
    while i < v.len()
        invariant
            i <= v@.len(),
            out@ =~= lower(v@).take(i as int),
        decreases v@.len() - i,
    {
        out.push(ascii_lower(v[i]));
        i += 1;
    }
    assert(lower(v@).take(v@.len() as int) =~= lower(v@));
    out
}

// ---------------------------------------------------------------------------
// Searching
// ---------------------------------------------------------------------------

/// The index of the first character of `s` that satisfies `p`.
pub open spec fn find(s: Seq<char>, p: spec_fn(char) -> bool) -> Option<int>
    decreases s.len(),
{
    if s.len() == 0 {
        None
    } else {
        match find(s.drop_last(), p) {
            Some(i) => Some(i),
            None => if p(s.last()) {
                Some(s.len() - 1)
            } else {
                None
            },
        }
    }
}

/// What `find` returns: an index at which `p` holds, with none before it, or
/// nothing where `p` holds nowhere.
pub proof fn lemma_find(s: Seq<char>, p: spec_fn(char) -> bool)
    ensures
        match find(s, p) {
            Some(i) => 0 <= i < s.len() && p(s[i]) && forall|j: int|
                0 <= j < i ==> !p(#[trigger] s[j]),
            None => forall|j: int| 0 <= j < s.len() ==> !p(#[trigger] s[j]),
        },
    decreases s.len(),
{
    if s.len() > 0 {
        let t = s.drop_last();
        lemma_find(t, p);
        match find(t, p) {
            Some(i) => {
                assert(s[i] == t[i]);
                assert forall|j: int| 0 <= j < i implies !p(#[trigger] s[j]) by {
                    assert(s[j] == t[j]);
                }
            },
            None => {
                assert forall|j: int| 0 <= j < s.len() - 1 implies !p(#[trigger] s[j]) by {
                    assert(s[j] == t[j]);
                }
            },
        }
    }
}

/// An index at which `p` holds, with none before it, is what `find` returns.
pub proof fn lemma_find_is(s: Seq<char>, p: spec_fn(char) -> bool, i: int)
    requires
        0 <= i < s.len(),
        p(s[i]),
        forall|j: int| 0 <= j < i ==> !p(#[trigger] s[j]),
    ensures
        find(s, p) == Some(i),
{
    lemma_find(s, p);
    let k = find(s, p);
    if k is Some {
        if k->0 < i {
            assert(!p(s[k->0]));
        }
    }
}

/// Where `p` holds nowhere, `find` returns nothing.
pub proof fn lemma_find_none(s: Seq<char>, p: spec_fn(char) -> bool)
    requires
        forall|j: int| 0 <= j < s.len() ==> !p(#[trigger] s[j]),
    ensures
        find(s, p) is None,
{
    lemma_find(s, p);
}

/// The index of the first character of `v` that is one of `set`.
pub fn find_among(v: &Vec<char>, set: &Vec<char>) -> (r: Option<usize>)
    ensures
        match r {
            Some(i) => find(v@, among(set@)) == Some(i as int) && i < v@.len(),
            None => find(v@, among(set@)) is None,
        },
{
    let ghost p = among(set@);
    let mut i: usize = 0;
    while i < v.len()
        invariant
            i <= v@.len(),
            p == among(set@),
            forall|j: int| 0 <= j < i ==> !p(#[trigger] v@[j]),
        decreases v@.len() - i,
    {
        if is_among(v[i], set) {
            proof {
                lemma_find_is(v@, p, i as int);
            }
            return Some(i);
        }
        i += 1;
    }
    proof {
        lemma_find_none(v@, p);
    }
    None
}

/// Whether `pat` stands in `s` at index `i`.
pub open spec fn occurs_at(s: Seq<char>, pat: Seq<char>, i: int) -> bool {
    &&& 0 <= i <= s.len() - pat.len()
    &&& s.subrange(i, i + pat.len()) == pat
}

/// Whether `pat` stands anywhere in `s`.
pub open spec fn has(s: Seq<char>, pat: Seq<char>) -> bool {
    exists|i: int| occurs_at(s, pat, i)
}

/// Whether `s` begins with `pat`.
pub open spec fn begins(s: Seq<char>, pat: Seq<char>) -> bool {
    occurs_at(s, pat, 0)
}

/// Whether `s` ends with `pat`.
pub open spec fn ends(s: Seq<char>, pat: Seq<char>) -> bool {
    occurs_at(s, pat, s.len() - pat.len())
}

/// Whether `pat` stands in `v` at index `i`.
pub fn stands_at(v: &Vec<char>, pat: &Vec<char>, i: usize) -> (r: bool)
    ensures
        r == occurs_at(v@, pat@, i as int),
{
    if pat.len() > v.len() || i > v.len() - pat.len() {
        return false;
    }
    let mut k: usize = 0;
    while k < pat.len()
        invariant
            k <= pat@.len(),
            i + pat@.len() <= v.len(),
            forall|j: int| 0 <= j < k ==> v@[i + j] == pat@[j],
        decreases pat@.len() - k,
    {
        if v[i + k] != pat[k] {
            assert(v@.subrange(i as int, i + pat@.len())[k as int] != pat@[k as int]);
            return false;
        }
        k += 1;
    }
    assert(v@.subrange(i as int, i + pat@.len()) =~= pat@);
    true
}

/// Whether `pat` stands anywhere in `s`.
pub fn contains(s: &str, pat: &str) -> (r: bool)
    ensures
        r == has(s@, pat@),
{
    let v = chars_of(s);
    let p = chars_of(pat);
    let mut i: usize = 0;
    while i < v.len()
        invariant
            i <= v@.len(),
            v@ == s@,
            p@ == pat@,
            forall|j: int| 0 <= j < i ==> !occurs_at(v@, p@, j),
        decreases v@.len() - i,
    {
        if stands_at(&v, &p, i) {
            return true;
        }
        i += 1;
    }
    let last = stands_at(&v, &p, i);
    assert(!last ==> forall|j: int| !occurs_at(v@, p@, j));
    last
}

/// Where, from `i` on, `pat` first stands in `s`.
pub open spec fn occurrence_from(s: Seq<char>, pat: Seq<char>, i: int) -> Option<int>
    decreases s.len() - i,
{
    if occurs_at(s, pat, i) {
        Some(i)
    } else if i >= s.len() {
        None
    } else {
        occurrence_from(s, pat, i + 1)
    }
}

/// What follows the first `pat` in `s`, or all of it where there is none.
pub open spec fn after_first(s: Seq<char>, pat: Seq<char>) -> Seq<char> {
    match occurrence_from(s, pat, 0) {
        Some(i) => s.skip(i + pat.len()),
        None => s,
    }
}

/// What follows the first `pat` in `s`, or all of it where there is none.
pub fn skip_past(s: &str, pat: &str) -> (r: String)
    ensures
        r@ == after_first(s@, pat@),
{
    let v = chars_of(s);
    let p = chars_of(pat);
    let mut i: usize = 0;
    while i < v.len() && !stands_at(&v, &p, i)
        invariant
            i <= v@.len(),
            occurrence_from(v@, p@, 0) == occurrence_from(v@, p@, i as int),
        decreases v@.len() - i,
    {
        i += 1;
    }
    if stands_at(&v, &p, i) {
        let r = substring(&v, i + p.len(), v.len());
        assert(r@ =~= s@.skip(i + pat@.len()));
        r
    } else {
        string_of(&v)
    }
}

/// Whether `c` stands anywhere in `s`.
pub fn contains_char(s: &str, c: char) -> (r: bool)
    ensures
        r == s@.contains(c),
{
    let v = chars_of(s);
    let mut i: usize = 0;
    while i < v.len()
        invariant
            i <= v@.len(),
            v@ == s@,
            forall|j: int| 0 <= j < i ==> v@[j] != c,
        decreases v@.len() - i,
    {
        if v[i] == c {
            assert(v@.contains(c));
            return true;
        }
        i += 1;
    }
    false
}

/// Whether `s` begins with `pat`.
pub fn starts_with(s: &str, pat: &str) -> (r: bool)
    ensures
        r == begins(s@, pat@),
{
    stands_at(&chars_of(s), &chars_of(pat), 0)
}

/// Whether `s` ends with `pat`.
pub fn ends_with(s: &str, pat: &str) -> (r: bool)
    ensures
        r == ends(s@, pat@),
{
    let v = chars_of(s);
    let p = chars_of(pat);
    if p.len() > v.len() {
        return false;
    }
    stands_at(&v, &p, v.len() - p.len())
}

/// What follows `pat` in `s`, where `s` begins with it.
pub open spec fn after_prefix(s: Seq<char>, pat: Seq<char>) -> Option<Seq<char>> {
    if begins(s, pat) {
        Some(s.skip(pat.len() as int))
    } else {
        None
    }
}

/// What follows `pat` in `s`, where `s` begins with it.
pub fn strip_prefix(s: &str, pat: &str) -> (r: Option<String>)
    ensures
        opt_text(r) == after_prefix(s@, pat@),
{
    let v = chars_of(s);
    let p = chars_of(pat);
    if stands_at(&v, &p, 0) {
        let rest = substring(&v, p.len(), v.len());
        assert(rest@ =~= s@.skip(pat@.len() as int));
        Some(rest)
    } else {
        None
    }
}

// ---------------------------------------------------------------------------
// Splitting and joining
// ---------------------------------------------------------------------------

/// The pieces of `s` between the characters that satisfy `p`.
pub open spec fn split(s: Seq<char>, p: spec_fn(char) -> bool) -> Seq<Seq<char>>
    decreases s.len(),
{
    if s.len() == 0 {
        seq![Seq::<char>::empty()]
    } else {
        let rest = split(s.drop_last(), p);
        if p(s.last()) {
            rest.push(Seq::<char>::empty())
        } else {
            rest.update(rest.len() - 1, rest.last().push(s.last()))
        }
    }
}

/// There is always a last piece.
pub proof fn lemma_split_nonempty(s: Seq<char>, p: spec_fn(char) -> bool)
    ensures
        split(s, p).len() > 0,
    decreases s.len(),
{
    if s.len() > 0 {
        lemma_split_nonempty(s.drop_last(), p);
    }
}

/// The pieces of `s` between the characters of `set`.
pub fn split_among(s: &str, set: &Vec<char>) -> (r: Vec<String>)
    ensures
        texts(r@) == split(s@, among(set@)),
        r@.len() > 0,
{
    let v = chars_of(s);
    let ghost p = among(set@);
    let mut parts: Vec<String> = Vec::new();
    let mut piece = String::new();
    let mut i: usize = 0;
    assert(v@.take(0) =~= Seq::<char>::empty());
    assert(texts(parts@).push(piece@) =~= split(v@.take(0), p));
    while i < v.len()
        invariant
            i <= v@.len(),
            p == among(set@),
            split(v@.take(i as int), p) == texts(parts@).push(piece@),
        decreases v@.len() - i,
    {
        let ghost t = v@.take(i + 1);
        assert(t.drop_last() =~= v@.take(i as int));
        assert(t.last() == v@[i as int]);
        if is_among(v[i], set) {
            proof {
                lemma_texts_push(parts@, piece);
            }
            parts.push(piece);
            piece = String::new();
            assert(split(t, p) =~= texts(parts@).push(piece@));
        } else {
            let ghost before = piece@;
            piece.push(v[i]);
            assert(split(t, p) =~= texts(parts@).push(piece@));
        }
        i += 1;
    }
    assert(v@.take(v@.len() as int) =~= v@);
    proof {
        lemma_texts_push(parts@, piece);
    }
    parts.push(piece);
    parts
}

/// The texts of `parts` with `sep` between them.
pub open spec fn joined(parts: Seq<Seq<char>>, sep: Seq<char>) -> Seq<char>
    decreases parts.len(),
{
    if parts.len() == 0 {
        Seq::empty()
    } else if parts.len() == 1 {
        parts[0]
    } else {
        joined(parts.drop_last(), sep) + sep + parts.last()
    }
}

/// The texts of `parts` with `sep` between them.
pub fn join(parts: &Vec<String>, sep: &str) -> (r: String)
    ensures
        r@ == joined(texts(parts@), sep@),
{
    let mut out = String::new();
    let mut i: usize = 0;
    let ghost t = texts(parts@);
    assert(t.take(0) =~= Seq::<Seq<char>>::empty());
    while i < parts.len()
        invariant
            i <= parts@.len(),
            t == texts(parts@),
            out@ == joined(t.take(i as int), sep@),
        decreases parts@.len() - i,
    {
        let ghost u = t.take(i + 1);
        assert(u.drop_last() =~= t.take(i as int));
        assert(u.last() == parts@[i as int]@);
        if i > 0 {
            out.append(sep);
        }
        out.append(parts[i].as_str());
        assert(out@ =~= joined(u, sep@));
        i += 1;
    }
    assert(t.take(parts@.len() as int) =~= t);
    out
}

/// `s` without one carriage return at its end.
pub open spec fn without_cr(s: Seq<char>) -> Seq<char> {
    if s.len() > 0 && s.last() == '\r' {
        s.drop_last()
    } else {
        s
    }
}

/// Drops one carriage return at the end.
pub fn strip_cr(s: String) -> (r: String)
    ensures
        r@ == without_cr(s@),
{
    let v = chars_of(s.as_str());
    let n = v.len();
    if n > 0 && v[n - 1] == '\r' {
        let r = substring(&v, 0, n - 1);
        assert(r@ =~= without_cr(s@));
        r
    } else {
        s
    }
}

/// The newline as a predicate.
pub open spec fn newline() -> spec_fn(char) -> bool {
    among(seq!['\n'])
}

/// The lines of `s`: each ends with a newline, with or without a carriage return
/// before it, and the last one may lack it.
pub open spec fn line_seq(s: Seq<char>) -> Seq<Seq<char>> {
    let parts = split(s, newline());
    let ended = Seq::new(
        (parts.len() - 1) as nat,
        |i: int| without_cr(parts[i]),
    );
    if parts.last().len() == 0 {
        ended
    } else {
        ended.push(parts.last())
    }
}

/// The lines of `s`.
pub fn lines(s: &str) -> (r: Vec<String>)
    ensures
        texts(r@) == line_seq(s@),
{
    let set: Vec<char> = vec!['\n'];
    assert(set@ =~= seq!['\n']);
    let mut parts = split_among(s, &set);
    let ghost all = texts(parts@);
    let last = parts.pop();
    let mut out: Vec<String> = Vec::new();
    let mut i: usize = 0;
    while i < parts.len()
        invariant
            i <= parts@.len(),
            parts@.len() == all.len() - 1,
            forall|j: int| 0 <= j < parts@.len() ==> (#[trigger] parts@[j])@ == all[j],
            out@.len() == i,
            forall|j: int| 0 <= j < i ==> (#[trigger] out@[j])@ == without_cr(all[j]),
        decreases parts@.len() - i,
    {
        assert(parts@[i as int]@ == all[i as int]);
        out.push(strip_cr(parts[i].clone()));
        i += 1;
    }
    match last {
        Some(l) => {
            if !l.as_str().is_empty() {
                out.push(l);
            }
        },
        None => {},
    }
    assert(texts(out@) =~= line_seq(s@));
    out
}

/// The words of `s`: its longest runs without white space.
pub open spec fn words(s: Seq<char>) -> Seq<Seq<char>> {
    split(s, spaces()).filter(|w: Seq<char>| w.len() > 0)
}

/// The words of `s`.
pub fn split_words(s: &str) -> (r: Vec<String>)
    ensures
        texts(r@) == words(s@),
{
    let v = chars_of(s);
    let ghost p = spaces();
    let ghost full = |w: Seq<char>| w.len() > 0;
    let ghost mut before: Seq<Seq<char>> = Seq::empty();
    let mut parts: Vec<String> = Vec::new();
    let mut piece = String::new();
    let mut i: usize = 0;
    assert(v@.take(0) =~= Seq::<char>::empty());
    assert(before.push(piece@) =~= split(v@.take(0), p));
    proof {
        reveal_with_fuel(Seq::filter, 1);
    }
    assert(texts(parts@) =~= before.filter(full));
    while i < v.len()
        invariant
            i <= v@.len(),
            p == spaces(),
            full == (|w: Seq<char>| w.len() > 0),
            split(v@.take(i as int), p) == before.push(piece@),
            texts(parts@) == before.filter(full),
        decreases v@.len() - i,
    {
        let ghost t = v@.take(i + 1);
        assert(t.drop_last() =~= v@.take(i as int));
        assert(t.last() == v@[i as int]);
        if space(v[i]) {
            proof {
                let grown = before.push(piece@);
                assert(grown.drop_last() =~= before);
                reveal_with_fuel(Seq::filter, 1);
                lemma_texts_push(parts@, piece);
                before = grown;
            }
            if !piece.as_str().is_empty() {
                parts.push(piece);
            }
            piece = String::new();
            assert(split(t, p) =~= before.push(piece@));
        } else {
            piece.push(v[i]);
            assert(split(t, p) =~= before.push(piece@));
        }
        i += 1;
    }
    assert(v@.take(v@.len() as int) =~= v@);
    proof {
        let grown = before.push(piece@);
        assert(grown.drop_last() =~= before);
        reveal_with_fuel(Seq::filter, 1);
        lemma_texts_push(parts@, piece);
    }
    if !piece.as_str().is_empty() {
        parts.push(piece);
    }
    parts
}

// ---------------------------------------------------------------------------
// Taking
// ---------------------------------------------------------------------------

/// The first `n` characters of `s`, or all of it where it is shorter.
pub open spec fn at_most(s: Seq<char>, n: nat) -> Seq<char> {
    if s.len() > n {
        s.take(n as int)
    } else {
        s
    }
}

/// The first `n` characters of `s`, or all of it where it is shorter.
pub fn take_chars(s: &str, n: usize) -> (r: String)
    ensures
        r@ == at_most(s@, n as nat),
{
    let v = chars_of(s);
    if v.len() > n {
        let r = substring(&v, 0, n);
        assert(r@ =~= s@.take(n as int));
        r
    } else {
        string_of(&v)
    }
}

/// The number of characters of `s`.
pub fn char_count(s: &str) -> (r: usize)
    ensures
        r == s@.len(),
{
    chars_of(s).len()
}

// ---------------------------------------------------------------------------
// Facts about trimming, splitting and joining
// ---------------------------------------------------------------------------

/// Nothing is dropped at the front of a text that does not begin with `p`.
pub proof fn lemma_leading_none(s: Seq<char>, p: spec_fn(char) -> bool)
    requires
        s.len() == 0 || !p(s[0]),
    ensures
        drop_leading(s, p) == s,
{
}

/// A text that is not empty, and begins and ends without white space, is trimmed.
pub proof fn lemma_trimmed_edges(s: Seq<char>)
    requires
        s.len() > 0 ==> !is_space(s[0]) && !is_space(s.last()),
    ensures
        trimmed(s) == s,
{
    lemma_leading_none(s, spaces());
}

/// Trimming a trimmed text changes nothing.
pub proof fn lemma_trimmed_twice(s: Seq<char>)
    ensures
        trimmed(trimmed(s)) == trimmed(s),
{
    let a = drop_leading(s, spaces());
    let b = trimmed(s);
    lemma_drop_leading(s, spaces());
    lemma_drop_trailing(a, spaces());
    if b.len() > 0 {
        assert(b[0] == a[0]);
    }
    lemma_trimmed_edges(b);
}

/// A blank before a text is trimmed away.
pub proof fn lemma_trimmed_after_blank(s: Seq<char>)
    ensures
        trimmed(seq![' '] + s) == trimmed(s),
{
    let t = seq![' '] + s;
    assert(t.drop_first() =~= s);
    assert(is_space(t[0]));
}

/// A text without a separator is one piece.
pub proof fn lemma_split_whole(s: Seq<char>, p: spec_fn(char) -> bool)
    requires
        forall|i: int| 0 <= i < s.len() ==> !p(#[trigger] s[i]),
    ensures
        split(s, p) == seq![s],
    decreases s.len(),
{
    if s.len() == 0 {
        assert(s =~= Seq::<char>::empty());
    } else {
        let t = s.drop_last();
        assert forall|i: int| 0 <= i < t.len() implies !p(#[trigger] t[i]) by {
            assert(t[i] == s[i]);
        }
        lemma_split_whole(t, p);
        assert(!p(s[s.len() - 1]));
        assert(t.push(s.last()) =~= s);
        assert(split(s, p) =~= seq![s]);
    }
}

/// The pieces of two texts with a separator between them.
pub proof fn lemma_split_concat(a: Seq<char>, c: char, b: Seq<char>, p: spec_fn(char) -> bool)
    requires
        p(c),
    ensures
        split(a.push(c) + b, p) == split(a, p) + split(b, p),
    decreases b.len(),
{
    let s = a.push(c) + b;
    if b.len() == 0 {
        assert(s =~= a.push(c));
        assert(s.drop_last() =~= a);
        assert(s.last() == c);
        assert(b =~= Seq::<char>::empty());
        assert(split(s, p) =~= split(a, p) + split(b, p));
    } else {
        let t = b.drop_last();
        lemma_split_concat(a, c, t, p);
        lemma_split_nonempty(t, p);
        assert(s.drop_last() =~= a.push(c) + t);
        assert(s.last() == b.last());
        assert(split(s, p) =~= split(a, p) + split(b, p));
    }
}

/// The pieces of a text hold no separator.
pub proof fn lemma_split_pieces(s: Seq<char>, p: spec_fn(char) -> bool)
    ensures
        forall|i: int, k: int|
            0 <= i < split(s, p).len() && 0 <= k < split(s, p)[i].len() ==> !p(
                #[trigger] split(s, p)[i][k],
            ),
    decreases s.len(),
{
    if s.len() > 0 {
        let rest = split(s.drop_last(), p);
        lemma_split_pieces(s.drop_last(), p);
        lemma_split_nonempty(s.drop_last(), p);
        let r = split(s, p);
        assert forall|i: int, k: int| 0 <= i < r.len() && 0 <= k < r[i].len() implies !p(
            #[trigger] r[i][k],
        ) by {
            if p(s.last()) {
                if i < rest.len() {
                    assert(r[i] == rest[i]);
                }
            } else if i < rest.len() - 1 {
                assert(r[i] == rest[i]);
            } else if k < rest.last().len() {
                assert(r[i][k] == rest[i][k]);
            }
        }
    }
}

/// The lines of a text that is ended by a newline, and of what follows it.
pub proof fn lemma_lines_concat(a: Seq<char>, b: Seq<char>)
    ensures
        line_seq(a.push('\n') + b) == Seq::new(
            split(a, newline()).len(),
            |i: int| without_cr(split(a, newline())[i]),
        ) + line_seq(b),
{
    let p = newline();
    let nl: Seq<char> = seq!['\n'];
    assert(nl.contains('\n')) by {
        assert(nl[0] == '\n');
    }
    lemma_split_concat(a, '\n', b, p);
    lemma_split_nonempty(b, p);
    let x = split(a, p);
    let y = split(b, p);
    let s = a.push('\n') + b;
    assert(split(s, p).last() == y.last());
    assert(line_seq(s) =~= Seq::new(x.len(), |i: int| without_cr(x[i])) + line_seq(b));
}

/// The line of a text without a newline, and the lines of what follows it.
pub proof fn lemma_lines_first(a: Seq<char>, b: Seq<char>)
    requires
        !a.contains('\n'),
        a.len() > 0 ==> a.last() != '\r',
    ensures
        line_seq(a.push('\n') + b) == seq![a] + line_seq(b),
{
    lemma_lines_concat(a, b);
    assert forall|i: int| 0 <= i < a.len() implies !newline()(#[trigger] a[i]) by {
        if newline()(a[i]) {
            assert(a.contains('\n'));
        }
    }
    lemma_split_whole(a, newline());
    assert(Seq::new(
        split(a, newline()).len(),
        |i: int| without_cr(split(a, newline())[i]),
    ) =~= seq![a]);
}

/// There are no lines in no text.
pub proof fn lemma_lines_empty()
    ensures
        line_seq(Seq::<char>::empty()) == Seq::<Seq<char>>::empty(),
{
    assert(line_seq(Seq::<char>::empty()) =~= Seq::<Seq<char>>::empty());
}

/// Joining from the front.
pub proof fn lemma_joined_first(parts: Seq<Seq<char>>, sep: Seq<char>)
    requires
        parts.len() >= 2,
    ensures
        joined(parts, sep) == parts[0] + sep + joined(parts.drop_first(), sep),
    decreases parts.len(),
{
    let rest = parts.drop_first();
    if parts.len() == 2 {
        let front = parts.drop_last();
        assert(front =~= seq![parts[0]]);
        assert(joined(front, sep) == front[0]);
        assert(rest =~= seq![parts[1]]);
        assert(joined(rest, sep) == rest[0]);
        assert(joined(parts, sep) =~= parts[0] + sep + joined(rest, sep));
    } else {
        let front = parts.drop_last();
        lemma_joined_first(front, sep);
        assert(front.drop_first() =~= rest.drop_last());
        assert(joined(parts, sep) =~= parts[0] + sep + joined(rest, sep));
    }
}

/// Joining one more.
pub proof fn lemma_joined_push(parts: Seq<Seq<char>>, last: Seq<char>, sep: Seq<char>)
    requires
        parts.len() > 0,
    ensures
        joined(parts.push(last), sep) == joined(parts, sep) + sep + last,
{
    assert(parts.push(last).drop_last() =~= parts);
}

/// Joining the pieces between newlines with newlines gives the text back.
pub proof fn lemma_joined_split(s: Seq<char>)
    ensures
        joined(split(s, newline()), seq!['\n']) == s,
    decreases s.len(),
{
    let p = newline();
    let sep: Seq<char> = seq!['\n'];
    if s.len() > 0 {
        let t = s.drop_last();
        let rest = split(t, p);
        lemma_joined_split(t);
        lemma_split_nonempty(t, p);
        if p(s.last()) {
            lemma_joined_push(rest, Seq::empty(), sep);
            assert(s.last() == '\n');
            assert(joined(split(s, p), sep) =~= s);
        } else {
            let r = split(s, p);
            if rest.len() == 1 {
                assert(r =~= seq![rest[0].push(s.last())]);
                assert(joined(r, sep) =~= s);
            } else {
                assert(r.drop_last() =~= rest.drop_last());
                assert(joined(r, sep) =~= joined(rest, sep).push(s.last()));
                assert(joined(r, sep) =~= s);
            }
        }
    } else {
        assert(joined(split(s, p), sep) =~= s);
    }
}

/// White space after a text is trimmed away.
pub proof fn lemma_trimmed_push_space(s: Seq<char>, c: char)
    requires
        is_space(c),
    ensures
        trimmed(s.push(c)) == trimmed(s),
    decreases s.len(),
{
    let t = s.push(c);
    if s.len() == 0 {
        assert(t[0] == c);
        assert(t.drop_first() =~= s);
    } else if is_space(s[0]) {
        assert(t[0] == s[0]);
        assert(t.drop_first() =~= s.drop_first().push(c));
        lemma_trimmed_push_space(s.drop_first(), c);
    } else {
        assert(t[0] == s[0]);
        assert(t.drop_last() =~= s);
    }
}

/// A carriage return at the end does not count for what a line holds.
pub proof fn lemma_trimmed_without_cr(s: Seq<char>)
    ensures
        trimmed(without_cr(s)) == trimmed(s),
{
    if s.len() > 0 && s.last() == '\r' {
        lemma_trimmed_push_space(s.drop_last(), '\r');
        assert(s.drop_last().push('\r') =~= s);
    }
}

/// What is trimmed holds nothing else than what was there.
pub proof fn lemma_trimmed_holds(s: Seq<char>, c: char)
    requires
        !s.contains(c),
    ensures
        !trimmed(s).contains(c),
{
    let a = drop_leading(s, spaces());
    lemma_drop_leading(s, spaces());
    lemma_drop_trailing(a, spaces());
    let r = trimmed(s);
    assert forall|i: int| 0 <= i < r.len() implies r[i] != c by {
        assert(r[i] == a[i]);
        assert(a[i] == s[s.len() - a.len() + i]);
        assert(s.contains(a[i]));
    }
}

/// The pieces of a text with one more character at its front, which separates nothing.
pub proof fn lemma_split_front(c: char, s: Seq<char>, p: spec_fn(char) -> bool)
    requires
        !p(c),
    ensures
        split(seq![c] + s, p) == split(s, p).update(0, seq![c] + split(s, p)[0]),
    decreases s.len(),
{
    let t = seq![c] + s;
    lemma_split_nonempty(s, p);
    if s.len() == 0 {
        assert(t.drop_last() =~= Seq::<char>::empty());
        assert(t.last() == c);
        assert(split(Seq::<char>::empty(), p) =~= seq![Seq::<char>::empty()]);
        assert(Seq::<char>::empty().push(c) =~= seq![c] + Seq::<char>::empty());
        assert(s =~= Seq::<char>::empty());
        assert(split(t, p) =~= split(s, p).update(0, seq![c] + split(s, p)[0]));
    } else {
        let b = s.drop_last();
        lemma_split_front(c, b, p);
        lemma_split_nonempty(b, p);
        assert(t.drop_last() =~= seq![c] + b);
        assert(t.last() == s.last());
        let x = split(b, p);
        if !p(s.last()) && x.len() == 1 {
            assert((seq![c] + x[0]).push(s.last()) =~= seq![c] + x[0].push(s.last()));
        }
        assert(split(t, p) =~= split(s, p).update(0, seq![c] + split(s, p)[0]));
    }
}

/// Lines that are joined with newlines are the pieces between them.
pub proof fn lemma_split_joined(parts: Seq<Seq<char>>)
    requires
        parts.len() > 0,
        forall|i: int| 0 <= i < parts.len() ==> !(#[trigger] parts[i]).contains('\n'),
    ensures
        split(joined(parts, seq!['\n']), newline()) == parts,
    decreases parts.len(),
{
    let nl: Seq<char> = seq!['\n'];
    assert(nl[0] == '\n');
    let last = parts.last();
    assert(last == parts[parts.len() - 1]);
    assert forall|i: int| 0 <= i < last.len() implies !newline()(#[trigger] last[i]) by {
        if newline()(last[i]) {
            assert(last.contains('\n'));
        }
    }
    lemma_split_whole(last, newline());
    if parts.len() == 1 {
        assert(parts =~= seq![last]);
    } else {
        let front = parts.drop_last();
        assert forall|i: int| 0 <= i < front.len() implies !(#[trigger] front[i]).contains(
            '\n',
        ) by {
            assert(front[i] == parts[i]);
        }
        lemma_split_joined(front);
        let a = joined(front, nl);
        assert(joined(parts, nl) =~= a.push('\n') + last);
        lemma_split_concat(a, '\n', last, newline());
        assert(front + seq![last] =~= parts);
    }
}

/// The lines of a text hold no newline.
pub proof fn lemma_line_seq_pieces(s: Seq<char>)
    ensures
        forall|i: int| 0 <= i < line_seq(s).len() ==> !(#[trigger] line_seq(s)[i]).contains('\n'),
{
    let parts = split(s, newline());
    let nl: Seq<char> = seq!['\n'];
    assert(nl[0] == '\n');
    lemma_split_pieces(s, newline());
    lemma_split_nonempty(s, newline());
    assert forall|i: int| 0 <= i < line_seq(s).len() implies !(#[trigger] line_seq(
        s,
    )[i]).contains('\n') by {
        let l = line_seq(s)[i];
        assert forall|k: int| 0 <= k < l.len() implies l[k] != '\n' by {
            assert(l[k] == parts[i][k]);
            assert(!newline()(parts[i][k]));
        }
    }
}

/// A text with a character that is no white space is not blank.
pub proof fn lemma_not_blank(s: Seq<char>, i: int)
    requires
        0 <= i < s.len(),
        !is_space(s[i]),
    ensures
        !blank(s),
    decreases s.len(),
{
    let a = drop_leading(s, spaces());
    lemma_drop_leading(s, spaces());
    let n = s.len() - a.len();
    if i < n {
        assert(spaces()(s[i]));
    }
    lemma_drop_trailing(a, spaces());
    if trimmed(s).len() == 0 {
        assert(spaces()(a[i - n]));
    }
}

/// A text that is not blank has a character that is no white space.
pub proof fn lemma_some_character(s: Seq<char>)
    requires
        !blank(s),
    ensures
        exists|i: int| 0 <= i < s.len() && !is_space(#[trigger] s[i]),
{
    let a = drop_leading(s, spaces());
    lemma_drop_leading(s, spaces());
    lemma_drop_trailing(a, spaces());
    assert(!spaces()(a[0]));
    assert(a[0] == s[s.len() - a.len()]);
}

/// A text that is not blank is not so with more behind it.
pub proof fn lemma_longer_is_not_blank(s: Seq<char>, t: Seq<char>)
    requires
        !blank(s),
    ensures
        !blank(s + t),
{
    lemma_some_character(s);
    let i = choose|i: int| 0 <= i < s.len() && !is_space(#[trigger] s[i]);
    assert((s + t)[i] == s[i]);
    lemma_not_blank(s + t, i);
}

/// A character that was made small stays so.
pub proof fn lemma_lower_twice(c: char)
    ensures
        lower_char(lower_char(c)) == lower_char(c),
{
    if 'A' <= c && c <= 'Z' {
        let u = ((c as u32) + 32) as u32;
        assert(97 <= u <= 122);
        assert(lower_char(c) == u as char);
        assert((u as char) as u32 == u);
    }
}

// ---------------------------------------------------------------------------
// Laws
// ---------------------------------------------------------------------------

/// A trimmed text is what stands in the text between white space: before and behind it
/// there is nothing else, and it neither begins nor ends with any.
pub proof fn law_trimming_drops_white_space_only(s: Seq<char>)
    ensures
        exists|a: int, b: int|
            0 <= a <= b <= s.len() && #[trigger] s.subrange(a, b) == trimmed(s) && (forall|i: int|
                0 <= i < a ==> is_space(#[trigger] s[i])) && (forall|i: int|
                b <= i < s.len() ==> is_space(#[trigger] s[i])),
        trimmed(s).len() > 0 ==> !is_space(trimmed(s)[0]) && !is_space(trimmed(s).last()),
{
    let front = drop_leading(s, spaces());
    lemma_drop_leading(s, spaces());
    lemma_drop_trailing(front, spaces());
    let a = s.len() - front.len();
    let b = a + trimmed(s).len();
    assert(s.subrange(a, b) =~= trimmed(s));
    assert forall|i: int| 0 <= i < a implies is_space(#[trigger] s[i]) by {
        assert(spaces()(s[i]));
    }
    assert forall|i: int| b <= i < s.len() implies is_space(#[trigger] s[i]) by {
        assert(spaces()(front[i - a]));
    }
    if trimmed(s).len() > 0 {
        assert(trimmed(s)[0] == front[0]);
        assert(!spaces()(front[0]));
        assert(!spaces()(trimmed(s).last()));
    }
}

/// A text is blank just where each of its characters is white space.
pub proof fn law_blank_is_white_space(s: Seq<char>)
    ensures
        blank(s) == (forall|i: int| 0 <= i < s.len() ==> is_space(#[trigger] s[i])),
{
    if !blank(s) {
        lemma_some_character(s);
    } else {
        assert forall|i: int| 0 <= i < s.len() implies is_space(#[trigger] s[i]) by {
            if !is_space(s[i]) {
                lemma_not_blank(s, i);
            }
        }
    }
}

/// The first characters of a text are a prefix of it that is no longer than asked for, and
/// all of it where that is enough.
pub proof fn law_prefix_is_as_long_as_asked(s: Seq<char>, n: nat)
    ensures
        at_most(s, n).len() == (if s.len() < n {
            s.len()
        } else {
            n
        }),
        forall|i: int| 0 <= i < at_most(s, n).len() ==> #[trigger] at_most(s, n)[i] == s[i],
{
}

/// Making a text small changes its capitals from A to Z, and nothing else.
pub proof fn law_only_capitals_change(s: Seq<char>, i: int)
    requires
        0 <= i < s.len(),
    ensures
        lower(s).len() == s.len(),
        !('A' <= s[i] && s[i] <= 'Z') ==> lower(s)[i] == s[i],
        'A' <= s[i] && s[i] <= 'Z' ==> lower(s)[i] as u32 == s[i] as u32 + 32,
{
    if 'A' <= s[i] && s[i] <= 'Z' {
        let u = ((s[i] as u32) + 32) as u32;
        assert((u as char) as u32 == u);
    }
}

/// What follows the first occurrence is found: where `pat` stands in `s` at `k` and nowhere
/// before, the rest is what comes after it; where it stands nowhere, nothing is
/// dropped.
pub proof fn law_rest_follows_the_first(s: Seq<char>, pat: Seq<char>, k: int)
    ensures
        occurs_at(s, pat, k) && (forall|j: int| 0 <= j < k ==> !#[trigger] occurs_at(s, pat, j))
            ==> after_first(s, pat) == s.skip(k + pat.len()),
        (forall|j: int| !#[trigger] occurs_at(s, pat, j)) ==> after_first(s, pat) == s,
{
    lemma_occurrence_from(s, pat, 0);
    if occurs_at(s, pat, k) && (forall|j: int| 0 <= j < k ==> !#[trigger] occurs_at(s, pat, j)) {
        match occurrence_from(s, pat, 0) {
            Some(i) => {
                if i < k {
                    assert(!occurs_at(s, pat, i));
                } else if k < i {
                    assert(!occurs_at(s, pat, k));
                }
            },
            None => {
                assert(!occurs_at(s, pat, k));
            },
        }
    }
}

/// What is found from `i` on is the first occurrence there.
proof fn lemma_occurrence_from(s: Seq<char>, pat: Seq<char>, i: int)
    requires
        0 <= i,
    ensures
        match occurrence_from(s, pat, i) {
            Some(k) => i <= k && occurs_at(s, pat, k) && forall|j: int|
                i <= j < k ==> !#[trigger] occurs_at(s, pat, j),
            None => forall|j: int| i <= j ==> !#[trigger] occurs_at(s, pat, j),
        },
    decreases s.len() - i,
{
    if !occurs_at(s, pat, i) && i < s.len() {
        lemma_occurrence_from(s, pat, i + 1);
    }
}

/// Words with a blank between them are found again as they were.
pub proof fn law_words_are_found(ws: Seq<Seq<char>>)
    requires
        forall|i: int|
            #![trigger ws[i]]
            0 <= i < ws.len() ==> ws[i].len() > 0 && forall|k: int|
                0 <= k < ws[i].len() ==> !is_space(#[trigger] ws[i][k]),
    ensures
        words(joined(ws, seq![' '])) == ws,
    decreases ws.len(),
{
    let full = |w: Seq<char>| w.len() > 0;
    let sep: Seq<char> = seq![' '];
    let flat = joined(ws, sep);
    reveal(Seq::filter);
    if ws.len() == 0 {
        assert(flat =~= Seq::<char>::empty());
        let parts = split(flat, spaces());
        assert(parts.drop_last() =~= Seq::<Seq<char>>::empty());
        assert(parts.drop_last().filter(full) =~= Seq::<Seq<char>>::empty());
        assert(words(flat) =~= ws);
    } else {
        let last = ws.last();
        let front = ws.drop_last();
        assert(last == ws[ws.len() - 1]);
        assert forall|i: int| 0 <= i < last.len() implies !spaces()(#[trigger] last[i]) by {}
        lemma_split_whole(last, spaces());
        assert forall|i: int| #![trigger front[i]] 0 <= i < front.len() implies front[i].len() > 0
            && forall|k: int| 0 <= k < front[i].len() ==> !is_space(#[trigger] front[i][k]) by {
            assert(front[i] == ws[i]);
        }
        law_words_are_found(front);
        if ws.len() == 1 {
            assert(flat == last);
            let parts = split(flat, spaces());
            assert(parts.drop_last() =~= Seq::<Seq<char>>::empty());
            assert(parts.drop_last().filter(full) =~= Seq::<Seq<char>>::empty());
            assert(words(flat) =~= seq![last]);
            assert(ws =~= seq![last]);
        } else {
            let before = joined(front, sep);
            assert(is_space(' '));
            assert(flat =~= before.push(' ') + last);
            lemma_split_concat(before, ' ', last, spaces());
            let parts = split(flat, spaces());
            assert(parts.drop_last() =~= split(before, spaces()));
            assert(parts.last() == last);
            assert(words(flat) == words(before).push(last));
            assert(front.push(last) =~= ws);
        }
    }
}

/// A line ends at a newline, with or without a carriage return before it, and the last one
/// may lack it; what comes after it are the next lines.
pub proof fn law_lines_end_at_newlines(a: Seq<char>, b: Seq<char>)
    requires
        !a.contains('\n'),
    ensures
        a.len() > 0 && a.last() == '\r' ==> line_seq(a.push('\n') + b) == seq![a.drop_last()]
            + line_seq(b),
        a.len() == 0 || a.last() != '\r' ==> line_seq(a.push('\n') + b) == seq![a] + line_seq(b),
        a.len() > 0 ==> line_seq(a) == seq![a],
        a.len() == 0 ==> line_seq(a).len() == 0,
{
    let nl: Seq<char> = seq!['\n'];
    assert(nl[0] == '\n');
    assert(newline()('\n')) by {
        assert(nl.contains('\n'));
    }
    assert forall|i: int| 0 <= i < a.len() implies !newline()(#[trigger] a[i]) by {
        if newline()(a[i]) {
            assert(a.contains('\n'));
        }
    }
    lemma_split_whole(a, newline());
    lemma_split_concat(a, '\n', b, newline());
    lemma_split_nonempty(b, newline());
    let parts = split(a.push('\n') + b, newline());
    assert(parts == seq![a] + split(b, newline()));
    assert(parts[0] == a);
    assert(parts.last() == split(b, newline()).last());
    assert(line_seq(a.push('\n') + b) =~= seq![without_cr(a)] + line_seq(b));
    if a.len() > 0 {
        assert(line_seq(a) =~= seq![a]);
    }
}

} // verus!
