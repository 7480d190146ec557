//! The tokens that a turn has used, as the provider counts them.
use vstd::prelude::*;

use crate::json;
use crate::json::{Json, JsonView};

verus! {

/// The count under a key; 0 where there is none.
pub open spec fn count(v: JsonView, key: Seq<char>) -> i64 {
    match json::member_i64(v, key) {
        Some(n) => n,
        None => 0,
    }
}

/// The tokens of a prompt that the provider had cached. Providers count them in one of
/// three places.
pub open spec fn cached_tokens(round: JsonView) -> i64 {
    let detailed = match json::member(round, "prompt_tokens_details"@) {
        Some(d) => json::member_i64(d, "cached_tokens"@),
        None => None,
    };
    match detailed {
        Some(n) => n,
        None => match json::member_i64(round, "cache_read_input_tokens"@) {
            Some(n) => n,
            None => count(round, "prompt_cache_hit_tokens"@),
        },
    }
}

/// The tokens of a prompt that were written to the provider's cache.
pub open spec fn cache_write_tokens(round: JsonView) -> i64 {
    count(round, "cache_creation_input_tokens"@)
}

/// Whether the sum of two counts is one.
pub open spec fn sum_fits(a: i64, b: i64) -> bool {
    i64::MIN <= a + b <= i64::MAX
}

/// `total` with `n` more under a key.
pub open spec fn increased(total: JsonView, key: Seq<char>, n: i64) -> JsonView {
    json::with_member(
        total,
        key,
        JsonView::Number(json::integer((count(total, key) + n) as i64)),
    )
}

/// `total` with the tokens of a round: those of its prompt and its reply, and those that
/// were cached, where any were.
pub open spec fn summed(total: JsonView, round: JsonView) -> JsonView {
    let t1 = increased(total, "prompt_tokens"@, count(round, "prompt_tokens"@));
    let t2 = increased(t1, "completion_tokens"@, count(round, "completion_tokens"@));
    let t3 = increased(t2, "total_tokens"@, count(round, "total_tokens"@));
    let t4 = if cached_tokens(round) != 0 {
        increased(t3, "cached_tokens"@, cached_tokens(round))
    } else {
        t3
    };
    if cache_write_tokens(round) != 0 {
        increased(t4, "cache_write_tokens"@, cache_write_tokens(round))
    } else {
        t4
    }
}

/// Whether the tokens of a round can be added to `total`.
pub open spec fn summable(total: JsonView, round: JsonView) -> bool {
    let t1 = increased(total, "prompt_tokens"@, count(round, "prompt_tokens"@));
    let t2 = increased(t1, "completion_tokens"@, count(round, "completion_tokens"@));
    let t3 = increased(t2, "total_tokens"@, count(round, "total_tokens"@));
    let t4 = if cached_tokens(round) != 0 {
        increased(t3, "cached_tokens"@, cached_tokens(round))
    } else {
        t3
    };
    &&& json::can_hold(total)
    &&& sum_fits(count(total, "prompt_tokens"@), count(round, "prompt_tokens"@))
    &&& sum_fits(count(t1, "completion_tokens"@), count(round, "completion_tokens"@))
    &&& sum_fits(count(t2, "total_tokens"@), count(round, "total_tokens"@))
    &&& cached_tokens(round) != 0 ==> sum_fits(
        count(t3, "cached_tokens"@),
        cached_tokens(round),
    )
    &&& cache_write_tokens(round) != 0 ==> sum_fits(
        count(t4, "cache_write_tokens"@),
        cache_write_tokens(round),
    )
    &&& sum_fits(count(round, "prompt_tokens"@), count(round, "completion_tokens"@))
}

/// `total` with the size of the context after a round: its prompt and its reply.
pub open spec fn with_context(total: JsonView, round: JsonView) -> JsonView {
    let prompt = count(round, "prompt_tokens"@);
    let completion = count(round, "completion_tokens"@);
    if prompt > 0 || completion > 0 {
        json::with_member(
            total,
            "context_tokens"@,
            JsonView::Number(json::integer((prompt + completion) as i64)),
        )
    } else {
        total
    }
}

/// The count under a key.
fn count_of(v: &Json, key: &str) -> (r: i64)
    ensures
        r == count(v@, key@),
{
    match v.get_i64(key) {
        Some(n) => n,
        None => 0,
    }
}

/// The tokens of a prompt that the provider had cached.
fn cached_of(round: &Json) -> (r: i64)
    ensures
        r == cached_tokens(round@),
{
    let detailed = match round.get("prompt_tokens_details") {
        Some(d) => d.get_i64("cached_tokens"),
        None => None,
    };
    match detailed {
        Some(n) => n,
        None => match round.get_i64("cache_read_input_tokens") {
            Some(n) => n,
            None => count_of(round, "prompt_cache_hit_tokens"),
        },
    }
}

/// Adds to a count.
fn increase(total: &mut Json, key: &str, n: i64)
    requires
        json::can_hold(old(total)@),
        sum_fits(count(old(total)@, key@), n),
    ensures
        final(total)@ == increased(old(total)@, key@, n),
{
    let sum: i64 = count_of(total, key) + n;
    total.set(key, Json::signed(sum));
}

/// Adds the tokens of a round, if it has counted any, to those of the turn.
pub fn sum_usage(total: &mut Json, round: &Option<Json>)
    requires
        round matches Some(r) ==> summable(old(total)@, r@),
    ensures
        final(total)@ == match round {
            Some(r) => summed(old(total)@, r@),
            None => old(total)@,
        },
{
    if let Some(round) = round {
        increase(total, "prompt_tokens", count_of(round, "prompt_tokens"));
        increase(total, "completion_tokens", count_of(round, "completion_tokens"));
        increase(total, "total_tokens", count_of(round, "total_tokens"));
        let cached: i64 = cached_of(round);
        if cached != 0 {
            increase(total, "cached_tokens", cached);
        }
        let written: i64 = count_of(round, "cache_creation_input_tokens");
        if written != 0 {
            increase(total, "cache_write_tokens", written);
        }
    }
}

/// Notes the size of the context after a round.
pub fn track_context(total: &mut Json, round: &Option<Json>)
    requires
        round matches Some(r) ==> (count(r@, "prompt_tokens"@) > 0 || count(
            r@,
            "completion_tokens"@,
        ) > 0) ==> json::can_hold(old(total)@) && sum_fits(
            count(r@, "prompt_tokens"@),
            count(r@, "completion_tokens"@),
        ),
    ensures
        final(total)@ == match round {
            Some(r) => with_context(old(total)@, r@),
            None => old(total)@,
        },
{
    if let Some(round) = round {
        let prompt: i64 = count_of(round, "prompt_tokens");
        let completion: i64 = count_of(round, "completion_tokens");
        if prompt > 0 || completion > 0 {
            total.set("context_tokens", Json::signed(prompt + completion));
        }
    }
}

/// Whether the sum of two counts is one.
fn fits(a: i64, b: i64) -> (r: bool)
    ensures
        r == sum_fits(a, b),
{
    a.checked_add(b).is_some()
}

/// Whether the tokens of a round can be added to those of the turn.
pub fn can_sum(total: &Json, round: &Json) -> (r: bool)
    ensures
        r == summable(total@, round@),
{
    let prompt: i64 = count_of(round, "prompt_tokens");
    let completion: i64 = count_of(round, "completion_tokens");
    let all: i64 = count_of(round, "total_tokens");
    let cached: i64 = cached_of(round);
    let written: i64 = count_of(round, "cache_creation_input_tokens");
    let holds = match total {
        Json::Object(_) => true,
        Json::Null => true,
        _ => false,
    };
    assert(holds == json::can_hold(total@)) by {
        broadcast use json::lemma_view;

    }
    if !holds || !fits(count_of(total, "prompt_tokens"), prompt) {
        return false;
    }
    let mut t = total.duplicate();
    increase(&mut t, "prompt_tokens", prompt);
    if !fits(count_of(&t, "completion_tokens"), completion) {
        return false;
    }
    increase(&mut t, "completion_tokens", completion);
    if !fits(count_of(&t, "total_tokens"), all) {
        return false;
    }
    increase(&mut t, "total_tokens", all);
    if cached != 0 {
        if !fits(count_of(&t, "cached_tokens"), cached) {
            return false;
        }
        increase(&mut t, "cached_tokens", cached);
    }
    if written != 0 && !fits(count_of(&t, "cache_write_tokens"), written) {
        return false;
    }
    fits(prompt, completion)
}

/// A count that was increased is larger by what was added, and the other counts are what
/// they were.
proof fn lemma_increased(total: JsonView, key: Seq<char>, n: i64)
    requires
        json::in_order(total),
        sum_fits(count(total, key), n),
    ensures
        json::in_order(increased(total, key, n)),
        count(increased(total, key, n), key) == count(total, key) + n,
        forall|k: Seq<char>|
            k != key ==> #[trigger] count(increased(total, key, n), k) == count(total, k),
{
    json::lemma_with_member(
        total,
        key,
        JsonView::Number(json::integer((count(total, key) + n) as i64)),
    );
}

/// The counts of a turn are the sums of those of its rounds: adding a round adds each of
/// its counts, with what was cached in one place wherever the provider put it.
pub proof fn law_usage_adds_up(total: JsonView, round: JsonView)
    requires
        json::in_order(total),
        summable(total, round),
    ensures
        ({
            let t = summed(total, round);
            &&& json::in_order(t)
            &&& count(t, "prompt_tokens"@) == count(total, "prompt_tokens"@) + count(
                round,
                "prompt_tokens"@,
            )
            &&& count(t, "completion_tokens"@) == count(total, "completion_tokens"@) + count(
                round,
                "completion_tokens"@,
            )
            &&& count(t, "total_tokens"@) == count(total, "total_tokens"@) + count(
                round,
                "total_tokens"@,
            )
            &&& count(t, "cached_tokens"@) == count(total, "cached_tokens"@) + cached_tokens(round)
            &&& count(t, "cache_write_tokens"@) == count(total, "cache_write_tokens"@)
                + cache_write_tokens(round)
        }),
{
    reveal_strlit("prompt_tokens");
    reveal_strlit("completion_tokens");
    reveal_strlit("total_tokens");
    reveal_strlit("cached_tokens");
    reveal_strlit("cache_write_tokens");
    assert("prompt_tokens"@.len() == 13 && "completion_tokens"@.len() == 17
        && "total_tokens"@.len() == 12 && "cached_tokens"@.len() == 13
        && "cache_write_tokens"@.len() == 18);
    assert("prompt_tokens"@[0] != "cached_tokens"@[0]);
    let t1 = increased(total, "prompt_tokens"@, count(round, "prompt_tokens"@));
    let t2 = increased(t1, "completion_tokens"@, count(round, "completion_tokens"@));
    let t3 = increased(t2, "total_tokens"@, count(round, "total_tokens"@));
    let t4 = if cached_tokens(round) != 0 {
        increased(t3, "cached_tokens"@, cached_tokens(round))
    } else {
        t3
    };
    lemma_increased(total, "prompt_tokens"@, count(round, "prompt_tokens"@));
    lemma_increased(t1, "completion_tokens"@, count(round, "completion_tokens"@));
    lemma_increased(t2, "total_tokens"@, count(round, "total_tokens"@));
    if cached_tokens(round) != 0 {
        lemma_increased(t3, "cached_tokens"@, cached_tokens(round));
    }
    if cache_write_tokens(round) != 0 {
        lemma_increased(t4, "cache_write_tokens"@, cache_write_tokens(round));
    }
}

/// A count is the whole number that stands under its key, and 0 where none does.
pub proof fn law_counts_are_read(v: JsonView, key: Seq<char>, n: i64)
    ensures
        json::member_i64(v, key) == Some(n) ==> count(v, key) == n,
        json::member(v, key) == Some(JsonView::Number(json::integer(n))) ==> count(v, key) == n,
        json::member(v, key) is None ==> count(v, key) == 0,
        !(v is Object) ==> count(v, key) == 0,
{
}

/// What was cached of a prompt is read from the first of the three places that tells it,
/// and what was written to the cache from the one that does.
pub proof fn law_cached_tokens_are_found(round: JsonView, details: JsonView, n: i64)
    ensures
        json::member(round, "prompt_tokens_details"@) == Some(details) && json::member_i64(
            details,
            "cached_tokens"@,
        ) == Some(n) ==> cached_tokens(round) == n,
        (json::member(round, "prompt_tokens_details"@) is None || json::member(
            round,
            "prompt_tokens_details"@,
        ) == Some(details) && json::member_i64(details, "cached_tokens"@) is None) ==> {
            &&& json::member_i64(round, "cache_read_input_tokens"@) == Some(n)
                ==> cached_tokens(round) == n
            &&& json::member_i64(round, "cache_read_input_tokens"@) is None && json::member_i64(
                round,
                "prompt_cache_hit_tokens"@,
            ) == Some(n) ==> cached_tokens(round) == n
            &&& json::member_i64(round, "cache_read_input_tokens"@) is None && json::member_i64(
                round,
                "prompt_cache_hit_tokens"@,
            ) is None ==> cached_tokens(round) == 0
        },
        json::member_i64(round, "cache_creation_input_tokens"@) == Some(n)
            ==> cache_write_tokens(round) == n,
        json::member_i64(round, "cache_creation_input_tokens"@) is None ==> cache_write_tokens(
            round,
        ) == 0,
{
}

/// The size of the context is what the last round that counted its tokens read and
/// wrote, and telling it changes no other count. A round that counted none leaves it.
pub proof fn law_context_is_of_the_last_round(total: JsonView, round: JsonView, key: Seq<char>)
    requires
        json::in_order(total),
        sum_fits(count(round, "prompt_tokens"@), count(round, "completion_tokens"@)),
    ensures
        ({
            let t = with_context(total, round);
            let prompt = count(round, "prompt_tokens"@);
            let completion = count(round, "completion_tokens"@);
            &&& json::in_order(t)
            &&& prompt > 0 || completion > 0 ==> count(t, "context_tokens"@) == prompt + completion
            &&& prompt <= 0 && completion <= 0 ==> t == total
            &&& key != "context_tokens"@ ==> json::member(t, key) == json::member(total, key)
        }),
{
    let prompt = count(round, "prompt_tokens"@);
    let completion = count(round, "completion_tokens"@);
    json::lemma_with_member(
        total,
        "context_tokens"@,
        JsonView::Number(json::integer((prompt + completion) as i64)),
    );
}

/// What a count has become in an object leaves what stands under the other keys.
proof fn lemma_increased_leaves_the_rest(total: JsonView, key: Seq<char>, n: i64)
    requires
        json::in_order(total),
    ensures
        json::in_order(increased(total, key, n)),
        json::member(increased(total, key, n), key) is Some,
        forall|k: Seq<char>|
            k != key ==> #[trigger] json::member(increased(total, key, n), k) == json::member(
                total,
                k,
            ),
{
    json::lemma_with_member(
        total,
        key,
        JsonView::Number(json::integer((count(total, key) + n) as i64)),
    );
}

/// Adding a round touches the five counts only, and those of what was cached only where
/// something was; the counts of prompt, reply and both are there from the first round on.
pub proof fn law_summing_leaves_the_rest(total: JsonView, round: JsonView, key: Seq<char>)
    requires
        json::in_order(total),
    ensures
        ({
            let t = summed(total, round);
            &&& json::member(t, "prompt_tokens"@) is Some
            &&& json::member(t, "completion_tokens"@) is Some
            &&& json::member(t, "total_tokens"@) is Some
            &&& cached_tokens(round) == 0 ==> json::member(t, "cached_tokens"@) == json::member(
                total,
                "cached_tokens"@,
            )
            &&& cache_write_tokens(round) == 0 ==> json::member(t, "cache_write_tokens"@)
                == json::member(total, "cache_write_tokens"@)
            &&& key != "prompt_tokens"@ && key != "completion_tokens"@ && key != "total_tokens"@
                && key != "cached_tokens"@ && key != "cache_write_tokens"@ ==> json::member(t, key)
                == json::member(total, key)
        }),
{
    reveal_strlit("prompt_tokens");
    reveal_strlit("completion_tokens");
    reveal_strlit("total_tokens");
    reveal_strlit("cached_tokens");
    reveal_strlit("cache_write_tokens");
    assert("prompt_tokens"@.len() == 13 && "completion_tokens"@.len() == 17
        && "total_tokens"@.len() == 12 && "cached_tokens"@.len() == 13
        && "cache_write_tokens"@.len() == 18);
    assert("prompt_tokens"@[0] != "cached_tokens"@[0]);
    let t1 = increased(total, "prompt_tokens"@, count(round, "prompt_tokens"@));
    let t2 = increased(t1, "completion_tokens"@, count(round, "completion_tokens"@));
    let t3 = increased(t2, "total_tokens"@, count(round, "total_tokens"@));
    let t4 = if cached_tokens(round) != 0 {
        increased(t3, "cached_tokens"@, cached_tokens(round))
    } else {
        t3
    };
    lemma_increased_leaves_the_rest(total, "prompt_tokens"@, count(round, "prompt_tokens"@));
    lemma_increased_leaves_the_rest(t1, "completion_tokens"@, count(round, "completion_tokens"@));
    lemma_increased_leaves_the_rest(t2, "total_tokens"@, count(round, "total_tokens"@));
    lemma_increased_leaves_the_rest(t3, "cached_tokens"@, cached_tokens(round));
    lemma_increased_leaves_the_rest(t4, "cache_write_tokens"@, cache_write_tokens(round));
}

} // verus!
