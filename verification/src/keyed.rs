//! Text in order, and lists of values under text keys.
//!
//! A keyed list holds each key once, in increasing order. A JSON object, the
//! files of a directory and the registries of a session are kept this way.
use vstd::prelude::*;

use crate::text;

verus! {

// ---------------------------------------------------------------------------
// Order
// ---------------------------------------------------------------------------

/// Whether `a` comes before `b`: by the first character in which they differ, or
/// because `a` is the beginning of `b`.
pub open spec fn before(a: Seq<char>, b: Seq<char>) -> bool
    decreases a.len(),
{
    if b.len() == 0 {
        false
    } else if a.len() == 0 {
        true
    } else if a[0] != b[0] {
        a[0] < b[0]
    } else {
        before(a.drop_first(), b.drop_first())
    }
}

/// No text comes before itself.
pub proof fn lemma_before_irreflexive(a: Seq<char>)
    ensures
        !before(a, a),
    decreases a.len(),
{
    if a.len() > 0 {
        lemma_before_irreflexive(a.drop_first());
    }
}

/// The order is transitive.
pub proof fn lemma_before_transitive(a: Seq<char>, b: Seq<char>, c: Seq<char>)
    requires
        before(a, b),
        before(b, c),
    ensures
        before(a, c),
    decreases a.len(),
{
    if a.len() > 0 && a[0] == b[0] && b[0] == c[0] {
        lemma_before_transitive(a.drop_first(), b.drop_first(), c.drop_first());
    }
}

/// Of two different texts one comes before the other.
pub proof fn lemma_before_total(a: Seq<char>, b: Seq<char>)
    ensures
        a == b || before(a, b) || before(b, a),
    decreases a.len(),
{
    if a.len() == 0 || b.len() == 0 {
        if a.len() == 0 && b.len() == 0 {
            assert(a =~= b);
        }
    } else if a[0] == b[0] {
        lemma_before_total(a.drop_first(), b.drop_first());
        if a.drop_first() == b.drop_first() {
            assert(a =~= seq![a[0]] + a.drop_first());
            assert(b =~= seq![b[0]] + b.drop_first());
        }
    }
}

/// Whether `a` comes before `b`.
pub fn comes_before(a: &str, b: &str) -> (r: bool)
    ensures
        r == before(a@, b@),
{
    let x = text::chars_of(a);
    let y = text::chars_of(b);
    let mut i: usize = 0;
    assert(x@.skip(0) =~= x@);
    assert(y@.skip(0) =~= y@);
    while i < x.len() && i < y.len() && x[i] == y[i]
        invariant
            i <= x@.len(),
            i <= y@.len(),
            before(x@, y@) == before(x@.skip(i as int), y@.skip(i as int)),
        decreases x@.len() - i,
    {
        assert(x@.skip(i as int).drop_first() =~= x@.skip(i + 1));
        assert(y@.skip(i as int).drop_first() =~= y@.skip(i + 1));
        i += 1;
    }
    if i >= y.len() {
        false
    } else if i >= x.len() {
        true
    } else {
        x[i] < y[i]
    }
}

// ---------------------------------------------------------------------------
// Keyed lists
// ---------------------------------------------------------------------------

/// The keys and values of a list of pairs.
pub open spec fn pairs<T>(v: Seq<(String, T)>) -> Seq<(Seq<char>, T)> {
    Seq::new(v.len(), |i: int| (v[i].0@, v[i].1))
}

/// Whether the keys increase, so that none occurs twice.
pub open spec fn increasing<T>(s: Seq<(Seq<char>, T)>) -> bool {
    forall|i: int, j: int| 0 <= i < j < s.len() ==> before((#[trigger] s[i]).0, (#[trigger] s[j]).0)
}

/// The index of the first pair with the key `key`.
pub open spec fn key_index<T>(s: Seq<(Seq<char>, T)>, key: Seq<char>) -> Option<int>
    decreases s.len(),
{
    if s.len() == 0 {
        None
    } else if s[0].0 == key {
        Some(0)
    } else {
        match key_index(s.drop_first(), key) {
            Some(i) => Some(i + 1),
            None => None,
        }
    }
}

/// The value under `key`: that of the first pair with that key.
pub open spec fn lookup<T>(s: Seq<(Seq<char>, T)>, key: Seq<char>) -> Option<T> {
    match key_index(s, key) {
        Some(i) => Some(s[i].1),
        None => None,
    }
}

/// How many of the leading keys come before `key`.
pub open spec fn place<T>(s: Seq<(Seq<char>, T)>, key: Seq<char>) -> nat
    decreases s.len(),
{
    if s.len() > 0 && before(s[0].0, key) {
        1 + place(s.drop_first(), key)
    } else {
        0
    }
}

/// `s` with `value` under `key`: in place of the value that was there, or in
/// the key's place in the order.
pub open spec fn put<T>(s: Seq<(Seq<char>, T)>, key: Seq<char>, value: T) -> Seq<
    (Seq<char>, T),
> {
    let i = place(s, key) as int;
    if i < s.len() && s[i].0 == key {
        s.update(i, (key, value))
    } else {
        s.insert(i, (key, value))
    }
}

/// `s` without the pair under `key`.
pub open spec fn without<T>(s: Seq<(Seq<char>, T)>, key: Seq<char>) -> Seq<(Seq<char>, T)> {
    match key_index(s, key) {
        Some(i) => s.remove(i),
        None => s,
    }
}

/// What `key_index` returns.
pub proof fn lemma_key_index<T>(s: Seq<(Seq<char>, T)>, key: Seq<char>)
    ensures
        match key_index(s, key) {
            Some(i) => 0 <= i < s.len() && s[i].0 == key && forall|j: int|
                0 <= j < i ==> (#[trigger] s[j]).0 != key,
            None => forall|j: int| 0 <= j < s.len() ==> (#[trigger] s[j]).0 != key,
        },
    decreases s.len(),
{
    if s.len() > 0 && s[0].0 != key {
        let t = s.drop_first();
        lemma_key_index(t, key);
        match key_index(t, key) {
            Some(i) => {
                assert(s[i + 1] == t[i]);
                assert forall|j: int| 0 <= j < i + 1 implies (#[trigger] s[j]).0 != key by {
                    if j > 0 {
                        assert(t[j - 1] == s[j]);
                    }
                }
            },
            None => {
                assert forall|j: int| 0 <= j < s.len() implies (#[trigger] s[j]).0 != key by {
                    if j > 0 {
                        assert(t[j - 1] == s[j]);
                    }
                }
            },
        }
    }
}

/// An index with the key, and none before it, is the key's index.
pub proof fn lemma_key_index_is<T>(s: Seq<(Seq<char>, T)>, key: Seq<char>, i: int)
    requires
        0 <= i < s.len(),
        s[i].0 == key,
        forall|j: int| 0 <= j < i ==> (#[trigger] s[j]).0 != key,
    ensures
        key_index(s, key) == Some(i),
        lookup(s, key) == Some(s[i].1),
{
    lemma_key_index(s, key);
    let k = key_index(s, key);
    if k is Some && k->0 < i {
        assert(s[k->0].0 != key);
    }
}

/// What `place` returns.
pub proof fn lemma_place<T>(s: Seq<(Seq<char>, T)>, key: Seq<char>)
    ensures
        place(s, key) <= s.len(),
        forall|j: int| 0 <= j < place(s, key) ==> before((#[trigger] s[j]).0, key),
        place(s, key) < s.len() ==> !before(s[place(s, key) as int].0, key),
    decreases s.len(),
{
    if s.len() > 0 && before(s[0].0, key) {
        let t = s.drop_first();
        lemma_place(t, key);
        assert forall|j: int| 0 <= j < place(s, key) implies before((#[trigger] s[j]).0, key) by {
            if j > 0 {
                assert(t[j - 1] == s[j]);
            }
        }
        if place(s, key) < s.len() {
            assert(t[place(t, key) as int] == s[place(s, key) as int]);
        }
    }
}

/// In a keyed list the pair with a key, if there is one, stands in the key's place.
pub proof fn lemma_place_of_key<T>(s: Seq<(Seq<char>, T)>, key: Seq<char>)
    requires
        increasing(s),
    ensures
        match key_index(s, key) {
            Some(i) => place(s, key) == i,
            None => true,
        },
{
    lemma_key_index(s, key);
    lemma_place(s, key);
    match key_index(s, key) {
        Some(i) => {
            let p = place(s, key) as int;
            if p > i {
                assert(before(s[i].0, key));
                lemma_before_irreflexive(key);
            } else if p < i {
                assert(before(s[p].0, s[i].0));
            }
        },
        None => {},
    }
}

/// Putting keeps the keys increasing; the value is then found under its key, and
/// under every other key what was there.
pub proof fn lemma_put<T>(s: Seq<(Seq<char>, T)>, key: Seq<char>, value: T)
    requires
        increasing(s),
    ensures
        increasing(put(s, key, value)),
        lookup(put(s, key, value), key) == Some(value),
        forall|k: Seq<char>|
            k != key ==> #[trigger] lookup(put(s, key, value), k) == lookup(s, k),
{
    let r = put(s, key, value);
    let p = place(s, key) as int;
    lemma_place(s, key);
    let replaced = p < s.len() && s[p].0 == key;
    assert(increasing(r)) by {
        assert forall|i: int, j: int| 0 <= i < j < r.len() implies before(
            (#[trigger] r[i]).0,
            (#[trigger] r[j]).0,
        ) by {
            if replaced {
                assert(r[i].0 == s[i].0 && r[j].0 == s[j].0);
                assert(before(s[i].0, s[j].0));
            } else {
                if j < p {
                    assert(before(s[i].0, s[j].0));
                } else if j == p {
                    assert(r[i] == s[i]);
                } else if i == p {
                    assert(r[j] == s[j - 1]);
                    lemma_before_total(key, s[p].0);
                    if j - 1 > p {
                        assert(before(s[p].0, s[j - 1].0));
                        lemma_before_transitive(key, s[p].0, s[j - 1].0);
                    }
                } else {
                    let i2 = if i < p { i } else { i - 1 };
                    assert(r[i] == s[i2] && r[j] == s[j - 1]);
                    assert(before(s[i2].0, s[j - 1].0));
                }
            }
        }
    }
    assert(r[p] == (key, value));
    assert forall|j: int| 0 <= j < p implies (#[trigger] r[j]).0 != key by {
        assert(r[j] == s[j]);
        lemma_before_irreflexive(key);
    }
    lemma_key_index_is(r, key, p);
    assert forall|k: Seq<char>| k != key implies #[trigger] lookup(r, k) == lookup(s, k) by {
        lemma_key_index(s, k);
        lemma_key_index(r, k);
        match key_index(s, k) {
            Some(i) => {
                let i2 = if replaced || i < p { i } else { i + 1 };
                assert(r[i2] == s[i]);
                assert forall|j: int| 0 <= j < i2 implies (#[trigger] r[j]).0 != k by {
                    if j != p {
                        let j2 = if replaced || j < p { j } else { j - 1 };
                        assert(r[j] == s[j2]);
                    }
                }
                lemma_key_index_is(r, k, i2);
            },
            None => {
                match key_index(r, k) {
                    Some(i) => {
                        assert(i != p);
                        let i2 = if replaced || i < p { i } else { i - 1 };
                        assert(r[i] == s[i2]);
                    },
                    None => {},
                }
            },
        }
    }
}

/// Removing keeps the keys increasing; nothing is then found under the key, and
/// under every other key what was there.
pub proof fn lemma_without<T>(s: Seq<(Seq<char>, T)>, key: Seq<char>)
    requires
        increasing(s),
    ensures
        increasing(without(s, key)),
        lookup(without(s, key), key) is None,
        forall|k: Seq<char>| k != key ==> #[trigger] lookup(without(s, key), k) == lookup(s, k),
{
    lemma_key_index(s, key);
    match key_index(s, key) {
        None => {},
        Some(p) => {
            let r = without(s, key);
            assert forall|i: int, j: int| 0 <= i < j < r.len() implies before(
                (#[trigger] r[i]).0,
                (#[trigger] r[j]).0,
            ) by {
                let i2 = if i < p { i } else { i + 1 };
                let j2 = if j < p { j } else { j + 1 };
                assert(r[i] == s[i2] && r[j] == s[j2]);
                assert(before(s[i2].0, s[j2].0));
            }
            lemma_key_index(r, key);
            match key_index(r, key) {
                Some(i) => {
                    let i2 = if i < p { i } else { i + 1 };
                    assert(r[i] == s[i2]);
                    if i2 < p {
                        assert(before(s[i2].0, s[p].0));
                    } else {
                        assert(before(s[p].0, s[i2].0));
                    }
                    lemma_before_irreflexive(key);
                },
                None => {},
            }
            assert forall|k: Seq<char>| k != key implies #[trigger] lookup(r, k) == lookup(
                s,
                k,
            ) by {
                lemma_key_index(s, k);
                lemma_key_index(r, k);
                match key_index(s, k) {
                    Some(i) => {
                        let i2 = if i < p { i } else { i - 1 };
                        assert(r[i2] == s[i]);
                        assert forall|j: int| 0 <= j < i2 implies (#[trigger] r[j]).0 != k by {
                            let j2 = if j < p { j } else { j + 1 };
                            assert(r[j] == s[j2]);
                        }
                        lemma_key_index_is(r, k, i2);
                    },
                    None => {
                        match key_index(r, k) {
                            Some(i) => {
                                let i2 = if i < p { i } else { i + 1 };
                                assert(r[i] == s[i2]);
                            },
                            None => {},
                        }
                    },
                }
            }
        },
    }
}

/// `s` with each value mapped.
pub open spec fn mapped<T, U>(s: Seq<(Seq<char>, T)>, f: spec_fn(T) -> U) -> Seq<(Seq<char>, U)> {
    Seq::new(s.len(), |i: int| (s[i].0, f(s[i].1)))
}

/// Mapping the values leaves the keys where they are.
pub proof fn lemma_mapped<T, U>(s: Seq<(Seq<char>, T)>, f: spec_fn(T) -> U, key: Seq<char>)
    ensures
        key_index(mapped(s, f), key) == key_index(s, key),
        place(mapped(s, f), key) == place(s, key),
        increasing(mapped(s, f)) == increasing(s),
        lookup(mapped(s, f), key) == match lookup(s, key) {
            Some(x) => Some(f(x)),
            None => None,
        },
    decreases s.len(),
{
    let t = mapped(s, f);
    if s.len() > 0 {
        assert(t.drop_first() =~= mapped(s.drop_first(), f));
        lemma_mapped(s.drop_first(), f, key);
    }
    lemma_key_index(s, key);
    if increasing(s) {
        assert forall|i: int, j: int| 0 <= i < j < t.len() implies before(
            (#[trigger] t[i]).0,
            (#[trigger] t[j]).0,
        ) by {
            assert(before(s[i].0, s[j].0));
        }
    }
    if increasing(t) {
        assert forall|i: int, j: int| 0 <= i < j < s.len() implies before(
            (#[trigger] s[i]).0,
            (#[trigger] s[j]).0,
        ) by {
            assert(before(t[i].0, t[j].0));
        }
    }
}

/// Putting a value and mapping all of them is mapping them and putting what it is
/// mapped to.
pub proof fn lemma_mapped_put<T, U>(
    s: Seq<(Seq<char>, T)>,
    f: spec_fn(T) -> U,
    key: Seq<char>,
    value: T,
)
    ensures
        mapped(put(s, key, value), f) == put(mapped(s, f), key, f(value)),
{
    lemma_mapped(s, f, key);
    lemma_place(s, key);
    let p = place(s, key) as int;
    if p < s.len() {
        assert(mapped(s, f)[p].0 == s[p].0);
    }
    assert(mapped(put(s, key, value), f) =~= put(mapped(s, f), key, f(value)));
}

/// Removing a key and mapping the values is mapping them and removing it.
pub proof fn lemma_mapped_without<T, U>(s: Seq<(Seq<char>, T)>, f: spec_fn(T) -> U, key: Seq<char>)
    ensures
        mapped(without(s, key), f) == without(mapped(s, f), key),
{
    lemma_mapped(s, f, key);
    lemma_key_index(s, key);
    assert(mapped(without(s, key), f) =~= without(mapped(s, f), key));
}

/// The index of the first pair with the key `key`.
pub fn position<T>(v: &Vec<(String, T)>, key: &str) -> (r: Option<usize>)
    ensures
        match r {
            Some(i) => key_index(pairs(v@), key@) == Some(i as int) && i < v@.len(),
            None => key_index(pairs(v@), key@) is None,
        },
{
    let ghost s = pairs(v@);
    let mut i: usize = 0;
    while i < v.len()
        invariant
            i <= v@.len(),
            s == pairs(v@),
            forall|j: int| 0 <= j < i ==> (#[trigger] s[j]).0 != key@,
        decreases v@.len() - i,
    {
        assert(s[i as int].0 == v@[i as int].0@);
        if text::same(v[i].0.as_str(), key) {
            proof {
                lemma_key_index_is(s, key@, i as int);
            }
            return Some(i);
        }
        i += 1;
    }
    proof {
        lemma_key_index(s, key@);
    }
    None
}

/// The value under `key`.
pub fn value_under<'a, T>(v: &'a Vec<(String, T)>, key: &str) -> (r: Option<&'a T>)
    ensures
        match r {
            Some(x) => lookup(pairs(v@), key@) == Some(*x),
            None => lookup(pairs(v@), key@) is None,
        },
{
    match position(v, key) {
        Some(i) => Some(&v[i].1),
        None => None,
    }
}

/// Puts `value` under `key`.
pub fn put_under<T>(v: &mut Vec<(String, T)>, key: &str, value: T)
    ensures
        pairs(final(v)@) == put(pairs(old(v)@), key@, value),
{
    let ghost s = pairs(v@);
    let mut i: usize = 0;
    assert(s.skip(0) =~= s);
    while i < v.len() && comes_before(v[i].0.as_str(), key)
        invariant
            i <= v@.len(),
            s == pairs(v@),
            place(s, key@) == i + place(s.skip(i as int), key@),
        decreases v@.len() - i,
    {
        assert(s.skip(i as int)[0] == s[i as int]);
        assert(s.skip(i as int).drop_first() =~= s.skip(i + 1));
        i += 1;
    }
    proof {
        if i < s.len() {
            assert(s.skip(i as int)[0] == s[i as int]);
        }
        assert(place(s, key@) == i);
    }
    if i < v.len() && text::same(v[i].0.as_str(), key) {
        v.set(i, (key.to_owned(), value));
    } else {
        v.insert(i, (key.to_owned(), value));
    }
    assert(pairs(v@) =~= put(s, key@, value));
}

/// Takes out the value under `key`.
pub fn remove_under<T>(v: &mut Vec<(String, T)>, key: &str) -> (r: Option<T>)
    ensures
        pairs(final(v)@) == without(pairs(old(v)@), key@),
        r == lookup(pairs(old(v)@), key@),
{
    match position(v, key) {
        Some(i) => {
            let (_, x) = v.remove(i);
            assert(pairs(v@) =~= without(pairs(old(v)@), key@));
            Some(x)
        },
        None => None,
    }
}

/// Texts are ordered by the first character in which they differ, and the beginning of a
/// text comes before it.
pub proof fn law_first_difference_decides(p: Seq<char>, x: char, y: char, r: Seq<char>, s: Seq<char>)
    ensures
        x < y ==> before(p.push(x) + r, p.push(y) + s) && !before(p.push(y) + s, p.push(x) + r),
        before(p, p.push(x) + r),
        !before(p.push(x) + r, p),
    decreases p.len(),
{
    let a = p.push(x) + r;
    let b = p.push(y) + s;
    if p.len() > 0 {
        let q = p.drop_first();
        law_first_difference_decides(q, x, y, r, s);
        assert(a.drop_first() =~= q.push(x) + r);
        assert(b.drop_first() =~= q.push(y) + s);
        assert(a[0] == p[0] && b[0] == p[0]);
    } else {
        assert(a[0] == x && b[0] == y);
    }
}

/// A value is found under its key, and nothing under a key that no pair has.
pub proof fn law_values_are_found<T>(s: Seq<(Seq<char>, T)>, key: Seq<char>, i: int)
    requires
        increasing(s),
    ensures
        0 <= i < s.len() ==> lookup(s, s[i].0) == Some(s[i].1),
        (forall|k: int| 0 <= k < s.len() ==> (#[trigger] s[k]).0 != key) ==> lookup(s, key) is None,
{
    lemma_key_index(s, key);
    if 0 <= i < s.len() {
        lemma_key_index(s, s[i].0);
        let k = key_index(s, s[i].0)->0;
        if k < i {
            assert(before(s[k].0, s[i].0));
            lemma_before_irreflexive(s[i].0);
        }
    }
}

/// Putting a value and taking it away again touches nothing else: the list is as it was
/// without that key.
pub proof fn law_removal_undoes_putting<T>(s: Seq<(Seq<char>, T)>, key: Seq<char>, value: T)
    requires
        increasing(s),
        lookup(s, key) is None,
    ensures
        put(s, key, value).len() == s.len() + 1,
        without(put(s, key, value), key) == s,
{
    lemma_put(s, key, value);
    lemma_place(s, key);
    lemma_key_index(s, key);
    let p = place(s, key) as int;
    let r = put(s, key, value);
    lemma_key_index(r, key);
    let k = key_index(r, key)->0;
    assert(r[p].0 == key);
    if k != p {
        assert(r[k].0 == key);
        lemma_before_irreflexive(key);
        if k < p {
            assert(before(r[k].0, r[p].0));
        } else {
            assert(before(r[p].0, r[k].0));
        }
    }
    assert(without(r, key) =~= s);
}

} // verus!
