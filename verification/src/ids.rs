//! Identifiers that nothing else has.
use vstd::prelude::*;

use crate::text;

verus! {

/// Whether `c` is a digit of a number to the base of sixteen, in small letters.
pub open spec fn is_hex(c: char) -> bool {
    ('0' <= c && c <= '9') || ('a' <= c && c <= 'f')
}

/// Whether `s` has the form of a UUID: 32 digits in five groups, with a hyphen between
/// them.
pub open spec fn is_uuid(s: Seq<char>) -> bool {
    &&& s.len() == 36
    &&& forall|i: int|
        0 <= i < 36 ==> (if i == 8 || i == 13 || i == 18 || i == 23 {
            #[trigger] s[i] == '-'
        } else {
            is_hex(s[i])
        })
}

/// `s` without its hyphens.
pub open spec fn unhyphenated(s: Seq<char>) -> Seq<char>
    decreases s.len(),
{
    if s.len() == 0 {
        s
    } else if s.last() == '-' {
        unhyphenated(s.drop_last())
    } else {
        unhyphenated(s.drop_last()).push(s.last())
    }
}

/// `uuid::Uuid::new_v4` in the form that `to_string` gives it: a random UUID. Which one
/// it is, is left to chance.
#[verifier::external_body]
pub(crate) fn random_uuid() -> (r: String)
    ensures
        is_uuid(r@),
{
    uuid::Uuid::new_v4().to_string()
}

/// A new identifier.
pub fn fresh_id() -> (r: String)
    ensures
        is_uuid(r@),
{
    random_uuid()
}

/// A new identifier without hyphens.
pub fn fresh_token() -> (r: String)
    ensures
        exists|id: Seq<char>| is_uuid(id) && r@ == #[trigger] unhyphenated(id),
{
    let id = random_uuid();
    let v = text::chars_of(id.as_str());
    let mut out = String::new();
    let mut i: usize = 0;
    assert(v@.take(0) =~= Seq::<char>::empty());
    assert(out@ =~= unhyphenated(v@.take(0)));
    while i < v.len()
        invariant
            i <= v@.len(),
            out@ == unhyphenated(v@.take(i as int)),
        decreases v@.len() - i,
    {
        assert(v@.take(i + 1).drop_last() =~= v@.take(i as int));
        assert(v@.take(i + 1).last() == v@[i as int]);
        if v[i] != '-' {
            out.push(v[i]);
        }
        i += 1;
    }
    assert(v@.take(i as int) =~= v@);
    out
}

/// An identifier without hyphens has every other character of it, in its order.
pub proof fn law_only_hyphens_go(s: Seq<char>)
    ensures
        unhyphenated(s) == s.filter(|c: char| c != '-'),
    decreases s.len(),
{
    reveal(Seq::filter);
    if s.len() > 0 {
        law_only_hyphens_go(s.drop_last());
    } else {
        assert(s =~= Seq::<char>::empty());
    }
}

} // verus!
