//! What models cost and how much they hold.
//!
//! Rates and the size of the context come from what the user set for a model, else from
//! the public catalog, else from a table that is part of the program. Asking for the
//! catalog, and keeping what it says, is the caller's work.
use vstd::prelude::*;
use vstd::string::*;

use crate::clock;
use crate::config::{AppConfig, ModelOverride};
use crate::json;
use crate::json::{Json, JsonView};
use crate::keyed;
use crate::text;
use crate::usage;

verus! {

/// The size of the context of a model of which nothing is known.
pub const DEFAULT_CONTEXT_WINDOW: u64 = 200_000;

/// Dollars for a million tokens.
#[derive(PartialEq, Eq, Structural, Clone, Copy, Debug)]
pub enum Rate {
    /// A number of cents.
    Cents(u32),
    /// The double with these bits.
    Double(u64),
}

// ---------------------------------------------------------------------------
// The table
// ---------------------------------------------------------------------------

/// What the table says of a model.
#[derive(PartialEq, Eq, Structural, Clone, Copy, Debug)]
pub struct Bundled {
    pub context_window: u64,
    pub input: Option<Rate>,
    pub output: Option<Rate>,
}

/// A row of the table with rates.
pub open spec fn priced(context_window: u64, input: u32, output: u32) -> Option<Bundled> {
    Some(
        Bundled {
            context_window,
            input: Some(Rate::Cents(input)),
            output: Some(Rate::Cents(output)),
        },
    )
}

/// A row of the table without rates.
pub open spec fn unpriced(context_window: u64) -> Option<Bundled> {
    Some(Bundled { context_window, input: None, output: None })
}

/// What the table says of a model, by what its id holds. The special rows come before
/// the general ones.
pub open spec fn table(id: Seq<char>) -> Option<Bundled> {
    if text::has(id, "llama-v3p1-405b"@) {
        priced(131_072, 300, 300)
    } else if text::has(id, "llama-v3p1-70b"@) {
        priced(131_072, 90, 90)
    } else if text::has(id, "llama-v3p3-70b"@) {
        priced(131_072, 90, 90)
    } else if text::has(id, "llama-v3p1-8b"@) {
        priced(131_072, 20, 20)
    } else if text::has(id, "llama-v3p2-3b"@) {
        priced(131_072, 10, 10)
    } else if text::has(id, "llama-v3p2-1b"@) {
        priced(131_072, 10, 10)
    } else if text::has(id, "mixtral-8x22b"@) {
        priced(65_536, 120, 120)
    } else if text::has(id, "mixtral-8x7b"@) {
        priced(32_768, 50, 50)
    } else if text::has(id, "qwen2p5-coder-32b"@) {
        priced(32_768, 90, 90)
    } else if text::has(id, "qwen2p5-72b"@) {
        priced(32_768, 90, 90)
    } else if text::has(id, "qwen2p5-7b"@) {
        priced(32_768, 20, 20)
    } else if text::has(id, "deepseek-r1"@) {
        priced(163_840, 300, 800)
    } else if text::has(id, "deepseek-v3"@) {
        priced(163_840, 90, 90)
    } else if text::has(id, "firefunction-v2"@) {
        priced(32_768, 90, 90)
    } else if text::has(id, "kimi-k2"@) {
        priced(131_072, 60, 250)
    } else if text::has(id, "codestral"@) {
        priced(32_768, 20, 60)
    } else if text::has(id, "gpt-4o-mini"@) {
        priced(128_000, 15, 60)
    } else if text::has(id, "gpt-4o"@) {
        priced(128_000, 250, 1000)
    } else if text::has(id, "gpt-4.1-mini"@) {
        priced(1_047_576, 40, 160)
    } else if text::has(id, "gpt-4.1"@) {
        priced(1_047_576, 200, 800)
    } else if text::has(id, "gpt-4-turbo"@) {
        priced(128_000, 1000, 3000)
    } else if text::has(id, "gpt-3.5-turbo"@) {
        priced(16_385, 50, 150)
    } else if text::has(id, "o1-mini"@) {
        priced(128_000, 110, 440)
    } else if text::has(id, "o3-mini"@) {
        priced(200_000, 110, 440)
    } else if text::has(id, "o1"@) {
        priced(200_000, 1500, 6000)
    } else if text::has(id, "llama"@) {
        unpriced(131_072)
    } else if text::has(id, "qwen"@) {
        unpriced(32_768)
    } else if text::has(id, "deepseek"@) {
        unpriced(163_840)
    } else if text::has(id, "mixtral"@) {
        unpriced(32_768)
    } else if text::has(id, "gemma"@) {
        unpriced(8_192)
    } else if text::has(id, "gpt-4"@) {
        unpriced(128_000)
    } else {
        None
    }
}

/// A row of the table with rates.
fn make_priced(context_window: u64, input: u32, output: u32) -> (r: Option<Bundled>)
    ensures
        r == priced(context_window, input, output),
{
    Some(
        Bundled {
            context_window,
            input: Some(Rate::Cents(input)),
            output: Some(Rate::Cents(output)),
        },
    )
}

/// A row of the table without rates.
fn make_unpriced(context_window: u64) -> (r: Option<Bundled>)
    ensures
        r == unpriced(context_window),
{
    Some(Bundled { context_window, input: None, output: None })
}

/// What the table says of a model, whatever the case of the letters of its id.
pub fn bundled_for(model_id: &str) -> (r: Option<Bundled>)
    ensures
        r == table(text::lower(model_id@)),
{
    let lower = text::to_lower(model_id);
    let id = lower.as_str();
    if text::contains(id, "llama-v3p1-405b") {
        make_priced(131_072, 300, 300)
    } else if text::contains(id, "llama-v3p1-70b") {
        make_priced(131_072, 90, 90)
    } else if text::contains(id, "llama-v3p3-70b") {
        make_priced(131_072, 90, 90)
    } else if text::contains(id, "llama-v3p1-8b") {
        make_priced(131_072, 20, 20)
    } else if text::contains(id, "llama-v3p2-3b") {
        make_priced(131_072, 10, 10)
    } else if text::contains(id, "llama-v3p2-1b") {
        make_priced(131_072, 10, 10)
    } else if text::contains(id, "mixtral-8x22b") {
        make_priced(65_536, 120, 120)
    } else if text::contains(id, "mixtral-8x7b") {
        make_priced(32_768, 50, 50)
    } else if text::contains(id, "qwen2p5-coder-32b") {
        make_priced(32_768, 90, 90)
    } else if text::contains(id, "qwen2p5-72b") {
        make_priced(32_768, 90, 90)
    } else if text::contains(id, "qwen2p5-7b") {
        make_priced(32_768, 20, 20)
    } else if text::contains(id, "deepseek-r1") {
        make_priced(163_840, 300, 800)
    } else if text::contains(id, "deepseek-v3") {
        make_priced(163_840, 90, 90)
    } else if text::contains(id, "firefunction-v2") {
        make_priced(32_768, 90, 90)
    } else if text::contains(id, "kimi-k2") {
        make_priced(131_072, 60, 250)
    } else if text::contains(id, "codestral") {
        make_priced(32_768, 20, 60)
    } else if text::contains(id, "gpt-4o-mini") {
        make_priced(128_000, 15, 60)
    } else if text::contains(id, "gpt-4o") {
        make_priced(128_000, 250, 1000)
    } else if text::contains(id, "gpt-4.1-mini") {
        make_priced(1_047_576, 40, 160)
    } else if text::contains(id, "gpt-4.1") {
        make_priced(1_047_576, 200, 800)
    } else if text::contains(id, "gpt-4-turbo") {
        make_priced(128_000, 1000, 3000)
    } else if text::contains(id, "gpt-3.5-turbo") {
        make_priced(16_385, 50, 150)
    } else if text::contains(id, "o1-mini") {
        make_priced(128_000, 110, 440)
    } else if text::contains(id, "o3-mini") {
        make_priced(200_000, 110, 440)
    } else if text::contains(id, "o1") {
        make_priced(200_000, 1500, 6000)
    } else if text::contains(id, "llama") {
        make_unpriced(131_072)
    } else if text::contains(id, "qwen") {
        make_unpriced(32_768)
    } else if text::contains(id, "deepseek") {
        make_unpriced(163_840)
    } else if text::contains(id, "mixtral") {
        make_unpriced(32_768)
    } else if text::contains(id, "gemma") {
        make_unpriced(8_192)
    } else if text::contains(id, "gpt-4") {
        make_unpriced(128_000)
    } else {
        None
    }
}

// ---------------------------------------------------------------------------
// Resolving
// ---------------------------------------------------------------------------

/// What the catalog said of a model.
#[derive(Clone, Debug)]
pub struct CachedPrice {
    pub input: Option<Rate>,
    pub output: Option<Rate>,
    pub cache_read: Option<Rate>,
    pub cache_write: Option<Rate>,
    pub context_window: Option<u64>,
    /// The name under which the model is shown.
    pub name: Option<String>,
    /// Whether the model reasons.
    pub reasoning: Option<bool>,
    /// How the model can be told to reason, as JSON.
    pub reasoning_options: Option<String>,
}

/// What a row of the catalog holds.
#[verifier::ext_equal]
pub struct PriceView {
    pub input: Option<Rate>,
    pub output: Option<Rate>,
    pub cache_read: Option<Rate>,
    pub cache_write: Option<Rate>,
    pub context_window: Option<u64>,
    pub name: Option<Seq<char>>,
    pub reasoning: Option<bool>,
    pub reasoning_options: Option<Seq<char>>,
}

impl View for CachedPrice {
    type V = PriceView;

    open spec fn view(&self) -> PriceView {
        PriceView {
            input: self.input,
            output: self.output,
            cache_read: self.cache_read,
            cache_write: self.cache_write,
            context_window: self.context_window,
            name: text::opt_text(self.name),
            reasoning: self.reasoning,
            reasoning_options: text::opt_text(self.reasoning_options),
        }
    }
}

impl Default for CachedPrice {
    /// A row that says nothing.
    fn default() -> (r: Self)
        ensures
            r@ == (PriceView {
                input: None,
                output: None,
                cache_read: None,
                cache_write: None,
                context_window: None,
                name: None,
                reasoning: None,
                reasoning_options: None,
            }),
    {
        CachedPrice {
            input: None,
            output: None,
            cache_read: None,
            cache_write: None,
            context_window: None,
            name: None,
            reasoning: None,
            reasoning_options: None,
        }
    }
}

/// What a model costs and how much it holds.
#[derive(Debug)]
pub struct Pricing {
    pub model_id: String,
    pub context_window: u64,
    pub input_per_million: Option<Rate>,
    pub output_per_million: Option<Rate>,
    pub cache_read_per_million: Option<Rate>,
    pub cache_write_per_million: Option<Rate>,
    /// Whether something that the user set contributed to the values.
    pub overridden: bool,
    /// Where the values come from: `override`, `fetched`, `bundled` or `default`.
    pub source: String,
}

/// What a pricing holds.
#[verifier::ext_equal]
pub struct PricingView {
    pub model_id: Seq<char>,
    pub context_window: u64,
    pub input_per_million: Option<Rate>,
    pub output_per_million: Option<Rate>,
    pub cache_read_per_million: Option<Rate>,
    pub cache_write_per_million: Option<Rate>,
    pub overridden: bool,
    pub source: Seq<char>,
}

impl View for Pricing {
    type V = PricingView;

    open spec fn view(&self) -> PricingView {
        PricingView {
            model_id: self.model_id@,
            context_window: self.context_window,
            input_per_million: self.input_per_million,
            output_per_million: self.output_per_million,
            cache_read_per_million: self.cache_read_per_million,
            cache_write_per_million: self.cache_write_per_million,
            overridden: self.overridden,
            source: self.source@,
        }
    }
}

/// The first of two that is there.
pub open spec fn either<T>(a: Option<T>, b: Option<T>) -> Option<T> {
    match a {
        Some(_) => a,
        None => b,
    }
}

/// The first of two that is there.
fn first_of<T: Copy>(a: Option<T>, b: Option<T>) -> (r: Option<T>)
    ensures
        r == either(a, b),
{
    match a {
        Some(x) => Some(x),
        None => b,
    }
}

/// Whether a row of the catalog says anything of rates or the context.
pub open spec fn says_something(c: PriceView) -> bool {
    c.input is Some || c.output is Some || c.context_window is Some || c.cache_read is Some
        || c.cache_write is Some
}

/// A row of the catalog, if it says anything of rates or the context.
pub open spec fn telling(cached: Option<PriceView>) -> Option<PriceView> {
    match cached {
        Some(c) => if says_something(c) {
            Some(c)
        } else {
            None
        },
        None => None,
    }
}

/// Whether the user has set anything for a model.
pub open spec fn sets_something(over: Option<ModelOverride>) -> bool {
    match over {
        Some(o) => {
            ||| o.context_window is Some
            ||| o.input_per_million is Some
            ||| o.output_per_million is Some
            ||| o.cache_read_per_million is Some
            ||| o.cache_write_per_million is Some
        },
        None => false,
    }
}

/// What a model costs and how much it holds. Value by value, what the user set comes
/// before the catalog, the catalog before the table, and the table before the defaults;
/// the table has no rates for what is cached.
pub open spec fn resolved(
    model_id: Seq<char>,
    over: Option<ModelOverride>,
    cached: Option<PriceView>,
) -> PricingView {
    let bundled = table(text::lower(model_id));
    let fetched = telling(cached);
    let window = either(
        either(
            match over {
                Some(o) => o.context_window,
                None => None,
            },
            match fetched {
                Some(c) => c.context_window,
                None => None,
            },
        ),
        match bundled {
            Some(b) => Some(b.context_window),
            None => None,
        },
    );
    PricingView {
        model_id,
        context_window: match window {
            Some(w) => w,
            None => DEFAULT_CONTEXT_WINDOW,
        },
        input_per_million: either(
            either(
                match over {
                    Some(o) => o.input_per_million,
                    None => None,
                },
                match fetched {
                    Some(c) => c.input,
                    None => None,
                },
            ),
            match bundled {
                Some(b) => b.input,
                None => None,
            },
        ),
        output_per_million: either(
            either(
                match over {
                    Some(o) => o.output_per_million,
                    None => None,
                },
                match fetched {
                    Some(c) => c.output,
                    None => None,
                },
            ),
            match bundled {
                Some(b) => b.output,
                None => None,
            },
        ),
        cache_read_per_million: either(
            match over {
                Some(o) => o.cache_read_per_million,
                None => None,
            },
            match fetched {
                Some(c) => c.cache_read,
                None => None,
            },
        ),
        cache_write_per_million: either(
            match over {
                Some(o) => o.cache_write_per_million,
                None => None,
            },
            match fetched {
                Some(c) => c.cache_write,
                None => None,
            },
        ),
        overridden: sets_something(over),
        source: if sets_something(over) {
            "override"@
        } else if fetched is Some {
            "fetched"@
        } else if bundled is Some {
            "bundled"@
        } else {
            "default"@
        },
    }
}

/// What an optional row holds.
pub open spec fn opt_price(c: Option<CachedPrice>) -> Option<PriceView> {
    match c {
        Some(c) => Some(c@),
        None => None,
    }
}

/// What a model costs and how much it holds.
pub fn resolve_with_cache(model_id: &str, config: &AppConfig, cached: Option<CachedPrice>) -> (r:
    Pricing)
    ensures
        r@ == resolved(model_id@, config.override_of(model_id@), opt_price(cached)),
{
    let bundled = bundled_for(model_id);
    let over: Option<ModelOverride> = match keyed::value_under(&config.model_overrides, model_id) {
        Some(o) => Some(*o),
        None => None,
    };
    let fetched = match cached {
        Some(c) => if c.input.is_some() || c.output.is_some() || c.context_window.is_some()
            || c.cache_read.is_some() || c.cache_write.is_some() {
            Some(c)
        } else {
            None
        },
        None => None,
    };
    let (ow, oi, oo, or, oc) = match over {
        Some(o) => (
            o.context_window,
            o.input_per_million,
            o.output_per_million,
            o.cache_read_per_million,
            o.cache_write_per_million,
        ),
        None => (None, None, None, None, None),
    };
    let (cw, ci, co, cr, cc) = match &fetched {
        Some(c) => (c.context_window, c.input, c.output, c.cache_read, c.cache_write),
        None => (None, None, None, None, None),
    };
    let (bw, bi, bo) = match bundled {
        Some(b) => (Some(b.context_window), b.input, b.output),
        None => (None, None, None),
    };
    let context_window: u64 = match first_of(first_of(ow, cw), bw) {
        Some(w) => w,
        None => DEFAULT_CONTEXT_WINDOW,
    };
    let overridden = ow.is_some() || oi.is_some() || oo.is_some() || or.is_some() || oc.is_some();
    let source = if overridden {
        "override"
    } else if fetched.is_some() {
        "fetched"
    } else if bundled.is_some() {
        "bundled"
    } else {
        "default"
    };
    Pricing {
        model_id: model_id.to_owned(),
        context_window,
        input_per_million: first_of(first_of(oi, ci), bi),
        output_per_million: first_of(first_of(oo, co), bo),
        cache_read_per_million: first_of(or, cr),
        cache_write_per_million: first_of(oc, cc),
        overridden,
        source: source.to_owned(),
    }
}

/// What the user set for a model decides, whatever the catalog and the table say.
pub proof fn law_override_decides(
    model_id: Seq<char>,
    over: ModelOverride,
    cached: Option<PriceView>,
)
    ensures
        ({
            let r = resolved(model_id, Some(over), cached);
            &&& over.context_window matches Some(w) ==> r.context_window == w
            &&& over.input_per_million is Some ==> r.input_per_million == over.input_per_million
            &&& over.output_per_million is Some ==> r.output_per_million == over.output_per_million
            &&& over.cache_read_per_million is Some ==> r.cache_read_per_million
                == over.cache_read_per_million
            &&& over.cache_write_per_million is Some ==> r.cache_write_per_million
                == over.cache_write_per_million
            &&& r.overridden == sets_something(Some(over))
            &&& r.overridden == (r.source == "override"@)
        }),
{
    lemma_sources_differ();
}

/// The names of the sources differ.
proof fn lemma_sources_differ()
    ensures
        "override"@ != "fetched"@,
        "override"@ != "bundled"@,
        "override"@ != "default"@,
{
    reveal_strlit("override");
    reveal_strlit("fetched");
    reveal_strlit("bundled");
    reveal_strlit("default");
    assert("override"@.len() == 8 && "fetched"@.len() == 7 && "bundled"@.len() == 7
        && "default"@.len() == 7);
}

/// An override that sets nothing is as none.
pub proof fn law_empty_override_is_none(
    model_id: Seq<char>,
    over: ModelOverride,
    cached: Option<PriceView>,
)
    requires
        !sets_something(Some(over)),
    ensures
        resolved(model_id, Some(over), cached) == resolved(model_id, None, cached),
{
}

/// Where the user set nothing, the catalog decides before the table does.
pub proof fn law_catalog_beats_table(model_id: Seq<char>, cached: PriceView)
    ensures
        ({
            let r = resolved(model_id, None, Some(cached));
            &&& cached.context_window matches Some(w) ==> r.context_window == w
            &&& cached.input is Some ==> r.input_per_million == cached.input
            &&& cached.output is Some ==> r.output_per_million == cached.output
            &&& says_something(cached) ==> r.source == "fetched"@
            &&& !r.overridden
        }),
{
}

// ---------------------------------------------------------------------------
// Billing
// ---------------------------------------------------------------------------

/// The tokens of a turn by how they are billed, and the rate for each.
#[derive(PartialEq, Eq, Structural, Clone, Copy, Debug)]
pub struct Bill {
    pub uncached: i64,
    pub cached: i64,
    pub cache_write: i64,
    pub completion: i64,
    pub input_rate: Rate,
    pub cache_read_rate: Rate,
    pub cache_write_rate: Rate,
    pub output_rate: Rate,
}

/// The smaller of two numbers.
pub open spec fn smaller(a: int, b: int) -> int {
    if a < b {
        a
    } else {
        b
    }
}

/// The tokens under a key; none where the count is negative.
pub open spec fn tokens(usage: JsonView, key: Seq<char>) -> int {
    if usage::count(usage, key) < 0 {
        0
    } else {
        usage::count(usage, key) as int
    }
}

/// The tokens of a prompt that are billed as read from the cache.
pub open spec fn cached_part(usage: JsonView) -> int {
    smaller(tokens(usage, "cached_tokens"@), tokens(usage, "prompt_tokens"@))
}

/// The tokens of a prompt that are billed as written to the cache.
pub open spec fn written_part(usage: JsonView) -> int {
    smaller(
        tokens(usage, "cache_write_tokens"@),
        tokens(usage, "prompt_tokens"@) - cached_part(usage),
    )
}

/// The bill of a turn. Without a rate for what goes in and for what comes out there is
/// none; the rates for what is cached are that for what goes in where they are not known.
pub open spec fn billed(usage: JsonView, pricing: PricingView) -> Option<Bill> {
    match (pricing.input_per_million, pricing.output_per_million) {
        (Some(input), Some(output)) => Some(
            Bill {
                uncached: (tokens(usage, "prompt_tokens"@) - cached_part(usage) - written_part(
                    usage,
                )) as i64,
                cached: cached_part(usage) as i64,
                cache_write: written_part(usage) as i64,
                completion: tokens(usage, "completion_tokens"@) as i64,
                input_rate: input,
                cache_read_rate: match pricing.cache_read_per_million {
                    Some(r) => r,
                    None => input,
                },
                cache_write_rate: match pricing.cache_write_per_million {
                    Some(r) => r,
                    None => input,
                },
                output_rate: output,
            },
        ),
        _ => None,
    }
}

/// The tokens under a key.
fn tokens_of(usage: &Json, key: &str) -> (r: i64)
    ensures
        r == tokens(usage@, key@),
{
    match usage.get_i64(key) {
        Some(n) => if n < 0 {
            0
        } else {
            n
        },
        None => 0,
    }
}

/// The bill of a turn.
pub fn bill(usage: &Json, pricing: &Pricing) -> (r: Option<Bill>)
    ensures
        r == billed(usage@, pricing@),
{
    let (input, output) = match (pricing.input_per_million, pricing.output_per_million) {
        (Some(i), Some(o)) => (i, o),
        _ => {
            return None;
        },
    };
    let prompt: i64 = tokens_of(usage, "prompt_tokens");
    let completion: i64 = tokens_of(usage, "completion_tokens");
    let cached: i64 = {
        let c: i64 = tokens_of(usage, "cached_tokens");
        if c < prompt {
            c
        } else {
            prompt
        }
    };
    let cache_write: i64 = {
        let w: i64 = tokens_of(usage, "cache_write_tokens");
        if w < prompt - cached {
            w
        } else {
            prompt - cached
        }
    };
    Some(
        Bill {
            uncached: prompt - cached - cache_write,
            cached,
            cache_write,
            completion,
            input_rate: input,
            cache_read_rate: match pricing.cache_read_per_million {
                Some(r) => r,
                None => input,
            },
            cache_write_rate: match pricing.cache_write_per_million {
                Some(r) => r,
                None => input,
            },
            output_rate: output,
        },
    )
}

/// Every token of a prompt is billed once: the three parts of a bill do not overlap and
/// make up the prompt.
pub proof fn law_parts_make_up_the_prompt(usage: JsonView, pricing: PricingView)
    ensures
        billed(usage, pricing) matches Some(b) ==> b.uncached >= 0 && b.cached >= 0
            && b.cache_write >= 0 && b.uncached + b.cached + b.cache_write == tokens(
            usage,
            "prompt_tokens"@,
        ) && b.completion == tokens(usage, "completion_tokens"@),
{
}

// ---------------------------------------------------------------------------
// The catalog
// ---------------------------------------------------------------------------

/// A URL without the slashes at its end.
pub open spec fn unslashed(url: Seq<char>) -> Seq<char> {
    text::drop_trailing(url, |c: char| c == '/')
}

/// The host of a URL, in small letters: what stands between `://` and the next slash.
pub open spec fn host(url: Seq<char>) -> Seq<char> {
    let rest = text::after_first(url, "://"@);
    text::lower(
        match text::find(rest, text::among(seq!['/'])) {
            Some(i) => rest.take(i),
            None => rest,
        },
    )
}

/// The key under which what is known of a provider's models is kept.
pub fn provider_key(base_url: &str) -> (r: String)
    ensures
        r@ == unslashed(base_url@),
{
    text::trim_end_char(base_url, '/')
}

/// The host of a URL.
pub fn host_of(url: &str) -> (r: String)
    ensures
        r@ == host(url@),
{
    let rest = text::skip_past(url, "://");
    let v = text::chars_of(rest.as_str());
    let slash: Vec<char> = vec!['/'];
    assert(slash@ =~= seq!['/']);
    match text::find_among(&v, &slash) {
        Some(i) => {
            let host = text::substring(&v, 0, i);
            assert(host@ =~= rest@.take(i as int));
            text::to_lower(host.as_str())
        },
        None => text::to_lower(rest.as_str()),
    }
}

/// Whether a provider of the catalog is the one at a URL.
pub open spec fn serves(provider: JsonView, base_url: Seq<char>) -> bool {
    json::member_text(provider, "api"@) matches Some(api) && unslashed(api) == unslashed(base_url)
}

/// Whether a provider of the catalog has the host of a URL.
pub open spec fn shares_host(provider: JsonView, base_url: Seq<char>) -> bool {
    json::member_text(provider, "api"@) matches Some(api) && host(unslashed(api)) == host(
        unslashed(base_url),
    )
}

/// The index of the first provider at a URL, or with its host.
pub open spec fn provider_index(
    providers: Seq<(Seq<char>, JsonView)>,
    base_url: Seq<char>,
    by_host: bool,
    from: int,
) -> Option<int>
    decreases providers.len() - from,
{
    if from >= providers.len() {
        None
    } else if (by_host && shares_host(providers[from].1, base_url)) || (!by_host && serves(
        providers[from].1,
        base_url,
    )) {
        Some(from)
    } else {
        provider_index(providers, base_url, by_host, from + 1)
    }
}

/// The id of the provider at a URL: the first whose address it is, else the first with
/// its host.
pub open spec fn provider_of(base_url: Seq<char>, root: JsonView) -> Option<Seq<char>> {
    match root {
        JsonView::Object(providers) => match provider_index(providers, base_url, false, 0) {
            Some(i) => Some(providers[i].0),
            None => match provider_index(providers, base_url, true, 0) {
                Some(i) => Some(providers[i].0),
                None => None,
            },
        },
        _ => None,
    }
}

/// The first provider that is found is one that was looked for, and where there is one,
/// it is found.
proof fn lemma_provider_index(
    providers: Seq<(Seq<char>, JsonView)>,
    base_url: Seq<char>,
    by_host: bool,
    from: int,
)
    requires
        0 <= from,
    ensures
        match provider_index(providers, base_url, by_host, from) {
            Some(i) => from <= i < providers.len() && if by_host {
                shares_host(providers[i].1, base_url)
            } else {
                serves(providers[i].1, base_url)
            },
            None => forall|k: int|
                from <= k < providers.len() ==> !(if by_host {
                    shares_host((#[trigger] providers[k]).1, base_url)
                } else {
                    serves(providers[k].1, base_url)
                }),
        },
    decreases providers.len() - from,
{
    if from < providers.len() {
        lemma_provider_index(providers, base_url, by_host, from + 1);
    }
}

/// A provider whose address it is comes before one that has but the host, and where one
/// of them is in the catalog, one is found.
pub proof fn law_address_comes_before_host(
    base_url: Seq<char>,
    providers: Seq<(Seq<char>, JsonView)>,
    k: int,
)
    requires
        0 <= k < providers.len(),
    ensures
        serves(providers[k].1, base_url) ==> (exists|i: int|
            0 <= i < providers.len() && serves((#[trigger] providers[i]).1, base_url)
                && provider_of(base_url, JsonView::Object(providers)) == Some(providers[i].0)),
        shares_host(providers[k].1, base_url) ==> provider_of(
            base_url,
            JsonView::Object(providers),
        ) is Some,
{
    lemma_provider_index(providers, base_url, false, 0);
    lemma_provider_index(providers, base_url, true, 0);
}

/// The index of the first provider at a URL, or with its host.
fn find_provider(providers: &Vec<(String, Json)>, base_url: &str, by_host: bool) -> (r: Option<
    usize,
>)
    ensures
        match r {
            Some(i) => i < providers@.len() && provider_index(
                json::field_views(providers@),
                base_url@,
                by_host,
                0,
            ) == Some(i as int),
            None => provider_index(json::field_views(providers@), base_url@, by_host, 0) is None,
        },
{
    let ghost p = json::field_views(providers@);
    let target = provider_key(base_url);
    let target_host = host_of(target.as_str());
    let mut i: usize = 0;
    while i < providers.len()
        invariant
            i <= providers@.len(),
            p == json::field_views(providers@),
            target@ == unslashed(base_url@),
            target_host@ == host(target@),
            provider_index(p, base_url@, by_host, 0) == provider_index(
                p,
                base_url@,
                by_host,
                i as int,
            ),
        decreases providers@.len() - i,
    {
        assert(p[i as int].1 == providers@[i as int].1@);
        if let Some(api) = providers[i].1.get_str("api") {
            let api = provider_key(api);
            if by_host {
                if text::same(host_of(api.as_str()).as_str(), target_host.as_str()) {
                    return Some(i);
                }
            } else if text::same(api.as_str(), target.as_str()) {
                return Some(i);
            }
        }
        i += 1;
    }
    None
}

/// The id of the provider at a URL.
pub fn provider_id_for(base_url: &str, root: &Json) -> (r: Option<String>)
    ensures
        text::opt_text(r) == provider_of(base_url@, root@),
{
    let providers = match root.as_object() {
        Some(p) => p,
        None => {
            return None;
        },
    };
    match find_provider(providers, base_url, false) {
        Some(i) => Some(providers[i].0.clone()),
        None => match find_provider(providers, base_url, true) {
            Some(i) => Some(providers[i].0.clone()),
            None => None,
        },
    }
}

/// A rate under a key.
pub open spec fn rate_in(holder: Option<JsonView>, key: Seq<char>) -> Option<Rate> {
    match holder {
        Some(v) => match json::member(v, key) {
            Some(n) => match json::number_as_double(n) {
                Some(bits) => Some(Rate::Double(bits)),
                None => None,
            },
            None => None,
        },
        None => None,
    }
}

/// What the catalog says of a model.
pub open spec fn price_of(model: JsonView) -> PriceView {
    let cost = json::member(model, "cost"@);
    PriceView {
        input: rate_in(cost, "input"@),
        output: rate_in(cost, "output"@),
        cache_read: rate_in(cost, "cache_read"@),
        cache_write: rate_in(cost, "cache_write"@),
        context_window: match json::member(model, "limit"@) {
            Some(limit) => json::member_u64(limit, "context"@),
            None => None,
        },
        name: json::member_text(model, "name"@),
        reasoning: json::member_bool(model, "reasoning"@),
        reasoning_options: match json::member_not_null(model, "reasoning_options"@) {
            Some(v) => Some(json::written(v)),
            None => None,
        },
    }
}

/// Whether what the catalog says of a model is worth keeping.
pub open spec fn worth_keeping(p: PriceView) -> bool {
    p.input is Some || p.output is Some || p.context_window is Some || p.name is Some
}

/// What the catalog says of models.
pub open spec fn prices_in(models: Seq<(Seq<char>, JsonView)>) -> Seq<(Seq<char>, PriceView)>
    decreases models.len(),
{
    if models.len() == 0 {
        Seq::empty()
    } else {
        let before = prices_in(models.drop_last());
        let (id, model) = models.last();
        if worth_keeping(price_of(model)) {
            before.push((id, price_of(model)))
        } else {
            before
        }
    }
}

/// What the catalog says of the models of a provider.
pub open spec fn provider_prices(provider: JsonView) -> Seq<(Seq<char>, PriceView)> {
    match json::member(provider, "models"@) {
        Some(JsonView::Object(models)) => prices_in(models),
        _ => Seq::empty(),
    }
}

/// What rows of the catalog hold.
pub open spec fn price_views(v: Seq<(String, CachedPrice)>) -> Seq<(Seq<char>, PriceView)> {
    Seq::new(v.len(), |i: int| (v[i].0@, v[i].1@))
}

/// A rate under a key.
fn read_rate(holder: Option<&Json>, key: &str) -> (r: Option<Rate>)
    ensures
        r == rate_in(
            match holder {
                Some(v) => Some(v@),
                None => None,
            },
            key@,
        ),
{
    match holder {
        Some(v) => match v.get(key) {
            Some(n) => match json::bits_of(n) {
                Some(bits) => Some(Rate::Double(bits)),
                None => None,
            },
            None => None,
        },
        None => None,
    }
}

/// What the catalog says of a model.
fn read_price(model: &Json) -> (r: CachedPrice)
    ensures
        r@ == price_of(model@),
{
    let cost = model.get("cost");
    CachedPrice {
        input: read_rate(cost, "input"),
        output: read_rate(cost, "output"),
        cache_read: read_rate(cost, "cache_read"),
        cache_write: read_rate(cost, "cache_write"),
        context_window: match model.get("limit") {
            Some(limit) => limit.get_u64("context"),
            None => None,
        },
        name: match model.get_str("name") {
            Some(s) => Some(s.to_owned()),
            None => None,
        },
        reasoning: model.get_bool("reasoning"),
        reasoning_options: match model.get_not_null("reasoning_options") {
            Some(v) => Some(json::to_text(v)),
            None => None,
        },
    }
}

/// What the catalog says of the models of a provider.
pub fn parse_provider_models(provider: &Json) -> (r: Vec<(String, CachedPrice)>)
    ensures
        price_views(r@) == provider_prices(provider@),
{
    let mut out: Vec<(String, CachedPrice)> = Vec::new();
    assert(price_views(out@) =~= Seq::<(Seq<char>, PriceView)>::empty());
    let holder = match provider.get("models") {
        Some(v) => v,
        None => {
            return out;
        },
    };
    let models = match holder.as_object() {
        Some(m) => m,
        None => {
            return out;
        },
    };
    let ghost m = json::field_views(models@);
    let mut i: usize = 0;
    assert(m.take(0) =~= Seq::<(Seq<char>, JsonView)>::empty());
    while i < models.len()
        invariant
            i <= models@.len(),
            m == json::field_views(models@),
            price_views(out@) == prices_in(m.take(i as int)),
        decreases models@.len() - i,
    {
        assert(m.take(i + 1).drop_last() =~= m.take(i as int));
        assert(m.take(i + 1).last() == m[i as int]);
        assert(m[i as int] == (models@[i as int].0@, models@[i as int].1@));
        let price = read_price(&models[i].1);
        if price.input.is_some() || price.output.is_some() || price.context_window.is_some()
            || price.name.is_some() {
            let ghost before = price_views(out@);
            let row = (models[i].0.clone(), price);
            out.push(row);
            assert(price_views(out@) =~= before.push((row.0@, row.1@)));
        }
        i += 1;
    }
    assert(m.take(i as int) =~= m);
    out
}

/// The rows to keep for the provider at a URL, with the provider's id, or why there are
/// none.
pub open spec fn rows_for(base_url: Seq<char>, root: JsonView) -> Result<
    (Seq<char>, Seq<(Seq<char>, PriceView)>),
    Seq<char>,
> {
    match provider_of(base_url, root) {
        None => Err(
            "No models.dev provider matches "@ + base_url
                + " — prices stay on the bundled defaults."@,
        ),
        Some(id) => match json::member(root, id) {
            None => Err("provider missing from catalog"@),
            Some(provider) => {
                let rows = provider_prices(provider);
                if rows.len() == 0 {
                    Err("models.dev has no priced models for '"@ + id + "'."@)
                } else {
                    Ok((id, rows))
                }
            },
        },
    }
}

/// The rows to keep for the provider at a URL.
pub fn provider_rows(base_url: &str, root: &Json) -> (r: Result<
    (String, Vec<(String, CachedPrice)>),
    String,
>)
    ensures
        match r {
            Ok((id, rows)) => rows_for(base_url@, root@) == Ok::<
                (Seq<char>, Seq<(Seq<char>, PriceView)>),
                Seq<char>,
            >((id@, price_views(rows@))),
            Err(e) => rows_for(base_url@, root@) == Err::<
                (Seq<char>, Seq<(Seq<char>, PriceView)>),
                Seq<char>,
            >(e@),
        },
{
    let id = match provider_id_for(base_url, root) {
        Some(id) => id,
        None => {
            let mut message = "No models.dev provider matches ".to_owned();
            message.append(base_url);
            message.append(" — prices stay on the bundled defaults.");
            return Err(message);
        },
    };
    let provider = match root.get(id.as_str()) {
        Some(p) => p,
        None => {
            return Err("provider missing from catalog".to_owned());
        },
    };
    let rows = parse_provider_models(provider);
    if rows.len() == 0 {
        let mut message = "models.dev has no priced models for '".to_owned();
        message.append(id.as_str());
        message.append("'.");
        return Err(message);
    }
    Ok((id, rows))
}

/// A row that is kept anew. Its rates are those that came; what did not come of the rest
/// stays as it was.
pub open spec fn merged(before: Option<PriceView>, new: PriceView) -> PriceView {
    match before {
        Some(b) => PriceView {
            context_window: either(new.context_window, b.context_window),
            name: either(new.name, b.name),
            reasoning: either(new.reasoning, b.reasoning),
            reasoning_options: either(new.reasoning_options, b.reasoning_options),
            ..new
        },
        None => new,
    }
}

/// A row that is kept anew.
pub fn merge_price(before: Option<CachedPrice>, new: CachedPrice) -> (r: CachedPrice)
    ensures
        r@ == merged(opt_price(before), new@),
{
    match before {
        Some(b) => CachedPrice {
            input: new.input,
            output: new.output,
            cache_read: new.cache_read,
            cache_write: new.cache_write,
            context_window: first_of(new.context_window, b.context_window),
            name: match new.name {
                Some(n) => Some(n),
                None => b.name,
            },
            reasoning: first_of(new.reasoning, b.reasoning),
            reasoning_options: match new.reasoning_options {
                Some(o) => Some(o),
                None => b.reasoning_options,
            },
        },
        None => new,
    }
}

/// What came of asking the catalog.
#[derive(Debug)]
pub struct RefreshResult {
    pub count: usize,
    pub provider: String,
    pub fetched_at: i64,
}

/// What came of asking the catalog now, for rows that were kept.
pub fn refreshed(provider: String, count: usize) -> (r: RefreshResult)
    ensures
        r.provider@ == provider@,
        r.count == count,
        clock::is_time(r.fetched_at),
{
    RefreshResult { count, provider, fetched_at: clock::now() }
}

// ---------------------------------------------------------------------------
// Reasoning
// ---------------------------------------------------------------------------

/// What is known of a model beside its price.
#[derive(Clone, Debug)]
pub struct ModelMeta {
    pub name: Option<String>,
    pub reasoning: Option<bool>,
    pub reasoning_options: Option<String>,
}

impl Default for ModelMeta {
    /// Nothing is known.
    fn default() -> (r: Self)
        ensures
            r.name is None,
            r.reasoning is None,
            r.reasoning_options is None,
    {
        ModelMeta { name: None, reasoning: None, reasoning_options: None }
    }
}

/// How a model can be told to reason.
#[derive(Debug)]
pub struct ThinkingOptions {
    pub options: Vec<String>,
    /// `models.dev`, `openai` or `none`.
    pub source: String,
    pub supports_reasoning: bool,
}

/// What the options hold.
#[verifier::ext_equal]
pub struct ThinkingView {
    pub options: Seq<Seq<char>>,
    pub source: Seq<char>,
    pub supports_reasoning: bool,
}

impl View for ThinkingOptions {
    type V = ThinkingView;

    open spec fn view(&self) -> ThinkingView {
        ThinkingView {
            options: text::texts(self.options@),
            source: self.source@,
            supports_reasoning: self.supports_reasoning,
        }
    }
}

/// `seen` with the texts among `values` that are not in it yet.
pub open spec fn with_values(seen: Seq<Seq<char>>, values: Seq<JsonView>) -> Seq<Seq<char>>
    decreases values.len(),
{
    if values.len() == 0 {
        seen
    } else {
        let before = with_values(seen, values.drop_last());
        match json::text_of(values.last()) {
            Some(s) => if before.contains(s) {
                before
            } else {
                before.push(s)
            },
            None => before,
        }
    }
}

/// The levels of effort among options, each once, in the order in which they come.
pub open spec fn efforts(options: Seq<JsonView>) -> Seq<Seq<char>>
    decreases options.len(),
{
    if options.len() == 0 {
        Seq::empty()
    } else {
        let before = efforts(options.drop_last());
        let option = options.last();
        if json::member_text(option, "type"@) == Some("effort"@) {
            match json::member_items(option, "values"@) {
                Some(values) => with_values(before, values),
                None => before,
            }
        } else {
            before
        }
    }
}

/// The levels of effort in what the catalog says, where it says anything.
pub open spec fn listed_efforts(raw: Option<Seq<char>>) -> Seq<Seq<char>> {
    match raw {
        Some(s) => match json::json_parse(s) {
            Some(JsonView::Array(options)) => efforts(options),
            _ => Seq::empty(),
        },
        None => Seq::empty(),
    }
}

/// How a model can be told to reason, where `levels` are those that the catalog lists: a
/// model that does not reason cannot be told; else it is the levels that are listed, or
/// those that are common.
pub open spec fn options_for(reasoning: Option<bool>, levels: Seq<Seq<char>>) -> ThinkingView {
    if reasoning == Some(false) {
        ThinkingView { options: Seq::empty(), source: "none"@, supports_reasoning: false }
    } else if levels.len() > 0 {
        ThinkingView { options: levels, source: "models.dev"@, supports_reasoning: true }
    } else {
        ThinkingView {
            options: seq!["minimal"@, "low"@, "medium"@, "high"@],
            source: "openai"@,
            supports_reasoning: true,
        }
    }
}

/// Whether `s` is one of `v`.
fn is_one_of(v: &Vec<String>, s: &str) -> (r: bool)
    ensures
        r == text::texts(v@).contains(s@),
{
    let ghost t = text::texts(v@);
    let mut i: usize = 0;
    while i < v.len()
        invariant
            i <= v@.len(),
            t == text::texts(v@),
            forall|j: int| 0 <= j < i ==> #[trigger] t[j] != s@,
        decreases v@.len() - i,
    {
        assert(t[i as int] == v@[i as int]@);
        if text::same(v[i].as_str(), s) {
            return true;
        }
        i += 1;
    }
    false
}

/// Adds the texts among `values` that are not there yet.
fn add_values(seen: &mut Vec<String>, values: &Vec<Json>)
    ensures
        text::texts(final(seen)@) == with_values(text::texts(old(seen)@), json::views(values@)),
{
    let ghost before = text::texts(seen@);
    let ghost v = json::views(values@);
    let mut i: usize = 0;
    assert(v.take(0) =~= Seq::<JsonView>::empty());
    while i < values.len()
        invariant
            i <= values@.len(),
            v == json::views(values@),
            text::texts(seen@) == with_values(before, v.take(i as int)),
        decreases values@.len() - i,
    {
        assert(v.take(i + 1).drop_last() =~= v.take(i as int));
        assert(v.take(i + 1).last() == values@[i as int]@);
        if let Some(s) = values[i].as_str() {
            if !is_one_of(seen, s) {
                let copy = s.to_owned();
                proof {
                    text::lemma_texts_push(seen@, copy);
                }
                seen.push(copy);
            }
        }
        i += 1;
    }
    assert(v.take(i as int) =~= v);
}

/// The levels of effort among options.
fn collect_efforts(options: &Vec<Json>) -> (r: Vec<String>)
    ensures
        text::texts(r@) == efforts(json::views(options@)),
{
    let ghost o = json::views(options@);
    let mut out: Vec<String> = Vec::new();
    let mut i: usize = 0;
    assert(o.take(0) =~= Seq::<JsonView>::empty());
    assert(text::texts(out@) =~= efforts(o.take(0)));
    while i < options.len()
        invariant
            i <= options@.len(),
            o == json::views(options@),
            text::texts(out@) == efforts(o.take(i as int)),
        decreases options@.len() - i,
    {
        assert(o.take(i + 1).drop_last() =~= o.take(i as int));
        assert(o.take(i + 1).last() == options@[i as int]@);
        let is_effort = match options[i].get_str("type") {
            Some(t) => text::same(t, "effort"),
            None => false,
        };
        if is_effort {
            if let Some(values) = options[i].get_array("values") {
                add_values(&mut out, values);
            }
        }
        i += 1;
    }
    assert(o.take(i as int) =~= o);
    out
}

/// How a model can be told to reason, given the levels that the catalog lists for it.
pub fn choose_options(reasoning: Option<bool>, levels: Vec<String>) -> (r: ThinkingOptions)
    ensures
        r@ == options_for(reasoning, text::texts(levels@)),
{
    let no = match reasoning {
        Some(b) => !b,
        None => false,
    };
    if no {
        let none: Vec<String> = Vec::new();
        assert(text::texts(none@) =~= Seq::<Seq<char>>::empty());
        ThinkingOptions { options: none, source: "none".to_owned(), supports_reasoning: false }
    } else if levels.len() > 0 {
        ThinkingOptions {
            options: levels,
            source: "models.dev".to_owned(),
            supports_reasoning: true,
        }
    } else {
        let common: Vec<String> = vec![
            "minimal".to_owned(),
            "low".to_owned(),
            "medium".to_owned(),
            "high".to_owned(),
        ];
        assert(text::texts(common@) =~= seq!["minimal"@, "low"@, "medium"@, "high"@]);
        ThinkingOptions { options: common, source: "openai".to_owned(), supports_reasoning: true }
    }
}

/// How a model can be told to reason.
pub fn thinking_options_for(meta: Option<ModelMeta>) -> (r: ThinkingOptions)
    ensures
        r@ == match meta {
            Some(m) => options_for(
                m.reasoning,
                listed_efforts(text::opt_text(m.reasoning_options)),
            ),
            None => options_for(None, Seq::empty()),
        },
{
    let mut levels: Vec<String> = Vec::new();
    assert(text::texts(levels@) =~= Seq::<Seq<char>>::empty());
    match meta {
        Some(m) => {
            if let Some(raw) = &m.reasoning_options {
                if let Some(parsed) = json::parse(raw.as_str()) {
                    if let Some(options) = parsed.as_array() {
                        levels = collect_efforts(options);
                    }
                }
            }
            choose_options(m.reasoning, levels)
        },
        None => choose_options(None, levels),
    }
}

/// The levels of effort that are offered are told apart: none is offered twice.
pub proof fn law_levels_differ(options: Seq<JsonView>)
    ensures
        efforts(options).no_duplicates(),
    decreases options.len(),
{
    if options.len() > 0 {
        law_levels_differ(options.drop_last());
        if let Some(values) = json::member_items(options.last(), "values"@) {
            lemma_values_differ(efforts(options.drop_last()), values);
        }
    }
}

/// Adding what is not there yet adds nothing twice.
proof fn lemma_values_differ(seen: Seq<Seq<char>>, values: Seq<JsonView>)
    requires
        seen.no_duplicates(),
    ensures
        with_values(seen, values).no_duplicates(),
    decreases values.len(),
{
    if values.len() > 0 {
        lemma_values_differ(seen, values.drop_last());
    }
}

// ---------------------------------------------------------------------------
// What is resolved, billed and kept
// ---------------------------------------------------------------------------

/// Each value of a model is settled for itself: what the user set of it, else what the
/// catalog says of it, else what the table says of it. A rate of one kind never stands in
/// for one of another.
pub proof fn law_each_value_is_resolved(
    model_id: Seq<char>,
    over: Option<ModelOverride>,
    cached: Option<PriceView>,
)
    ensures
        ({
            let r = resolved(model_id, over, cached);
            let row = table(text::lower(model_id));
            let free = |set: Option<Rate>, said: Option<Rate>| set is None && said is None;
            let set_in = if over is Some { over->0.input_per_million } else { None };
            let set_out = if over is Some { over->0.output_per_million } else { None };
            let set_read = if over is Some { over->0.cache_read_per_million } else { None };
            let set_write = if over is Some { over->0.cache_write_per_million } else { None };
            let set_window = if over is Some { over->0.context_window } else { None };
            let said_in = if cached is Some { cached->0.input } else { None };
            let said_out = if cached is Some { cached->0.output } else { None };
            let said_read = if cached is Some { cached->0.cache_read } else { None };
            let said_write = if cached is Some { cached->0.cache_write } else { None };
            let said_window = if cached is Some { cached->0.context_window } else { None };
            &&& r.model_id == model_id
            &&& set_in is Some ==> r.input_per_million == set_in
            &&& set_in is None && said_in is Some ==> r.input_per_million == said_in
            &&& free(set_in, said_in) && row is Some ==> r.input_per_million == row->0.input
            &&& free(set_in, said_in) && row is None ==> r.input_per_million is None
            &&& set_out is Some ==> r.output_per_million == set_out
            &&& set_out is None && said_out is Some ==> r.output_per_million == said_out
            &&& free(set_out, said_out) && row is Some ==> r.output_per_million == row->0.output
            &&& free(set_out, said_out) && row is None ==> r.output_per_million is None
            &&& set_read is Some ==> r.cache_read_per_million == set_read
            &&& set_read is None ==> r.cache_read_per_million == said_read
            &&& set_write is Some ==> r.cache_write_per_million == set_write
            &&& set_write is None ==> r.cache_write_per_million == said_write
            &&& set_window matches Some(w) ==> r.context_window == w
            &&& set_window is None ==> (said_window matches Some(w) ==> r.context_window == w)
            &&& set_window is None && said_window is None && row is Some ==> r.context_window
                == row->0.context_window
            &&& set_window is None && said_window is None && row is None ==> r.context_window
                == 200_000
        }),
{
}

/// Where neither the user nor the catalog says anything of a model, it costs what the table
/// says, and the source says so.
pub proof fn law_table_is_the_last_word(model_id: Seq<char>, row: Bundled)
    requires
        table(text::lower(model_id)) == Some(row),
    ensures
        ({
            let r = resolved(model_id, None, None);
            &&& r.input_per_million == row.input
            &&& r.output_per_million == row.output
            &&& r.context_window == row.context_window
            &&& r.cache_read_per_million is None && r.cache_write_per_million is None
            &&& r.source == "bundled"@
            &&& !r.overridden
        }),
{
}

/// The rates of the table are of cents, both or none, and what comes out never costs less
/// than what goes in. The case of a model's id makes no difference.
pub proof fn law_table_is_sound(id: Seq<char>)
    ensures
        table(id) matches Some(row) ==> {
            &&& row.context_window >= 8_192
            &&& (row.input is Some) == (row.output is Some)
            &&& row.input matches Some(Rate::Cents(i)) ==> (row.output matches Some(Rate::Cents(o))
                && i <= o)
            &&& !(row.input matches Some(Rate::Double(_)))
        },
        resolved(text::lower(id), None, None).input_per_million == resolved(
            id,
            None,
            None,
        ).input_per_million,
        resolved(text::lower(id), None, None).output_per_million == resolved(
            id,
            None,
            None,
        ).output_per_million,
        resolved(text::lower(id), None, None).context_window == resolved(
            id,
            None,
            None,
        ).context_window,
{
    assert(text::lower(text::lower(id)) =~= text::lower(id)) by {
        assert forall|i: int| 0 <= i < id.len() implies text::lower_char(
            text::lower_char(#[trigger] id[i]),
        ) == text::lower_char(id[i]) by {
            text::lemma_lower_twice(id[i]);
        }
    }
}

/// A turn is billed where there is a rate for what goes in and one for what comes out: what
/// came out at the second, what was written to the cache and read from it at their own
/// rates or else at the first, and the rest of the prompt at the first.
pub proof fn law_bill_has_its_rates(usage: JsonView, pricing: PricingView)
    ensures
        (billed(usage, pricing) is Some) == (pricing.input_per_million is Some
            && pricing.output_per_million is Some),
        billed(usage, pricing) matches Some(b) ==> {
            let prompt = json::member_i64(usage, "prompt_tokens"@);
            let completion = json::member_i64(usage, "completion_tokens"@);
            let cached = json::member_i64(usage, "cached_tokens"@);
            let write = json::member_i64(usage, "cache_write_tokens"@);
            &&& Some(b.input_rate) == pricing.input_per_million
            &&& Some(b.output_rate) == pricing.output_per_million
            &&& pricing.cache_read_per_million matches Some(r) ==> b.cache_read_rate == r
            &&& pricing.cache_read_per_million is None ==> b.cache_read_rate == b.input_rate
            &&& pricing.cache_write_per_million matches Some(r) ==> b.cache_write_rate == r
            &&& pricing.cache_write_per_million is None ==> b.cache_write_rate == b.input_rate
            &&& completion matches Some(n) ==> n >= 0 ==> b.completion == n
            &&& completion is None ==> b.completion == 0
            &&& cached is None ==> b.cached == 0
            &&& write is None ==> b.cache_write == 0
            &&& prompt matches Some(p) ==> (cached matches Some(c) ==> 0 <= c <= p ==> b.cached
                == c)
            &&& prompt matches Some(p) ==> (write matches Some(w) ==> 0 <= w <= p - b.cached
                ==> b.cache_write == w)
            &&& prompt matches Some(p) ==> p >= 0 ==> b.uncached == p - b.cached - b.cache_write
        },
{
}

/// What the catalog says of a model is read from its places: the rates from its costs, the
/// context from its limits, and the rest from the model itself.
pub proof fn law_catalog_is_read(model: JsonView, cost: JsonView, limit: JsonView)
    requires
        json::member(model, "cost"@) == Some(cost),
        json::member(model, "limit"@) == Some(limit),
    ensures
        ({
            let p = price_of(model);
            &&& json::member(cost, "input"@) matches Some(JsonView::Number(n)) ==> p.input == Some(
                Rate::Double(json::double_bits(n)),
            )
            &&& json::member(cost, "output"@) matches Some(JsonView::Number(n)) ==> p.output
                == Some(Rate::Double(json::double_bits(n)))
            &&& json::member(cost, "cache_read"@) matches Some(JsonView::Number(n))
                ==> p.cache_read == Some(Rate::Double(json::double_bits(n)))
            &&& json::member(cost, "cache_write"@) matches Some(JsonView::Number(n))
                ==> p.cache_write == Some(Rate::Double(json::double_bits(n)))
            &&& json::member(cost, "input"@) is None ==> p.input is None
            &&& json::member(cost, "output"@) is None ==> p.output is None
            &&& json::member(cost, "cache_read"@) is None ==> p.cache_read is None
            &&& json::member(cost, "cache_write"@) is None ==> p.cache_write is None
            &&& p.context_window == json::member_u64(limit, "context"@)
            &&& p.name == json::member_text(model, "name"@)
            &&& p.reasoning == json::member_bool(model, "reasoning"@)
            &&& json::member(model, "reasoning_options"@) matches Some(JsonView::Array(a))
                ==> p.reasoning_options == Some(json::written(JsonView::Array(a)))
            &&& json::member(model, "reasoning_options"@) is None ==> p.reasoning_options is None
        }),
{
}

/// The rows of a provider are its models, under their ids and in their order, without those
/// of which neither a rate nor the context nor a name is known.
pub proof fn law_catalog_rows_are_the_models(models: Seq<(Seq<char>, JsonView)>)
    ensures
        prices_in(models) == models.filter(
            |m: (Seq<char>, JsonView)|
                price_of(m.1).input is Some || price_of(m.1).output is Some || price_of(
                    m.1,
                ).context_window is Some || price_of(m.1).name is Some,
        ).map_values(|m: (Seq<char>, JsonView)| (m.0, price_of(m.1))),
    decreases models.len(),
{
    reveal(Seq::filter);
    let f = |m: (Seq<char>, JsonView)|
        price_of(m.1).input is Some || price_of(m.1).output is Some || price_of(
            m.1,
        ).context_window is Some || price_of(m.1).name is Some;
    let g = |m: (Seq<char>, JsonView)| (m.0, price_of(m.1));
    if models.len() > 0 {
        let front = models.drop_last();
        law_catalog_rows_are_the_models(front);
        if f(models.last()) {
            assert(models.filter(f).map_values(g) =~= front.filter(f).map_values(g).push(
                g(models.last()),
            ));
        }
    }
    assert(prices_in(models) =~= models.filter(f).map_values(g));
}

/// The rows that are kept for a URL are those of a provider in the catalog at that URL, or
/// at least with its host, under its own id.
pub proof fn law_rows_are_of_the_provider(base_url: Seq<char>, providers: Seq<(Seq<char>, JsonView)>)
    requires
        keyed::increasing(providers),
        rows_for(base_url, JsonView::Object(providers)) is Ok,
    ensures
        exists|i: int|
            {
                &&& 0 <= i < providers.len()
                &&& serves((#[trigger] providers[i]).1, base_url) || shares_host(
                    providers[i].1,
                    base_url,
                )
                &&& rows_for(base_url, JsonView::Object(providers)) == Ok::<
                    (Seq<char>, Seq<(Seq<char>, PriceView)>),
                    Seq<char>,
                >((providers[i].0, provider_prices(providers[i].1)))
            },
{
    lemma_provider_index(providers, base_url, false, 0);
    lemma_provider_index(providers, base_url, true, 0);
    let i = match provider_index(providers, base_url, false, 0) {
        Some(i) => i,
        None => provider_index(providers, base_url, true, 0)->0,
    };
    let key = providers[i].0;
    keyed::lemma_key_index(providers, key);
    let k = keyed::key_index(providers, key)->0;
    if k < i {
        assert(keyed::before(providers[k].0, providers[i].0));
        keyed::lemma_before_irreflexive(key);
    }
    assert(k == i);
}

/// A provider without a match gives no rows, and says for which URL.
pub proof fn law_unknown_provider_is_told(base_url: Seq<char>, providers: Seq<(Seq<char>, JsonView)>)
    requires
        forall|i: int|
            0 <= i < providers.len() ==> !serves((#[trigger] providers[i]).1, base_url)
                && !shares_host(providers[i].1, base_url),
    ensures
        provider_of(base_url, JsonView::Object(providers)) is None,
        rows_for(base_url, JsonView::Object(providers)) is Err,
        text::has(rows_for(base_url, JsonView::Object(providers))->Err_0, base_url),
{
    lemma_provider_index(providers, base_url, false, 0);
    lemma_provider_index(providers, base_url, true, 0);
    let a = "No models.dev provider matches "@;
    let message = rows_for(base_url, JsonView::Object(providers))->Err_0;
    assert(message.subrange(a.len() as int, (a.len() + base_url.len()) as int) =~= base_url);
    assert(text::occurs_at(message, base_url, a.len() as int));
}

/// A row that is kept anew has the rates that came. Of the rest it has what came, and what
/// it had where nothing came: nothing that was known is forgotten but rates.
pub proof fn law_kept_rows_forget_nothing_but_rates(before: PriceView, new: PriceView)
    ensures
        ({
            let r = merged(Some(before), new);
            &&& r.input == new.input && r.output == new.output
            &&& r.cache_read == new.cache_read && r.cache_write == new.cache_write
            &&& new.context_window is Some ==> r.context_window == new.context_window
            &&& new.context_window is None ==> r.context_window == before.context_window
            &&& new.name is Some ==> r.name == new.name
            &&& new.name is None ==> r.name == before.name
            &&& new.reasoning is Some ==> r.reasoning == new.reasoning
            &&& new.reasoning is None ==> r.reasoning == before.reasoning
            &&& new.reasoning_options is Some ==> r.reasoning_options == new.reasoning_options
            &&& new.reasoning_options is None ==> r.reasoning_options == before.reasoning_options
        }),
        merged(None, new) == new,
        merged(Some(merged(Some(before), new)), new) == merged(Some(before), new),
{
}

/// Whether an option lists a level of effort.
pub open spec fn lists_effort(option: JsonView, level: Seq<char>) -> bool {
    &&& json::member_text(option, "type"@) == Some("effort"@)
    &&& json::member_items(option, "values"@) matches Some(values) && values.contains(
        JsonView::Text(level),
    )
}

/// The levels of effort that are offered are those that the catalog lists for it, every one
/// of them and no other.
pub proof fn law_listed_levels_are_offered(options: Seq<JsonView>, level: Seq<char>)
    ensures
        efforts(options).contains(level) <==> exists|i: int|
            0 <= i < options.len() && lists_effort(#[trigger] options[i], level),
    decreases options.len(),
{
    if options.len() > 0 {
        let front = options.drop_last();
        let last = options.last();
        let n = options.len() - 1;
        law_listed_levels_are_offered(front, level);
        if json::member_text(last, "type"@) == Some("effort"@) {
            if let Some(values) = json::member_items(last, "values"@) {
                lemma_values_offered(efforts(front), values, level);
            }
        }
        if efforts(options).contains(level) {
            if efforts(front).contains(level) {
                let i = choose|i: int|
                    0 <= i < front.len() && lists_effort(#[trigger] front[i], level);
                assert(lists_effort(options[i], level));
            } else {
                assert(lists_effort(options[n], level));
            }
        }
        if exists|i: int| 0 <= i < options.len() && lists_effort(#[trigger] options[i], level) {
            let i = choose|i: int|
                0 <= i < options.len() && lists_effort(#[trigger] options[i], level);
            if i < n {
                assert(lists_effort(front[i], level));
            }
        }
    }
}

/// What is there after values were added is what was there, and the texts among them.
proof fn lemma_values_offered(seen: Seq<Seq<char>>, values: Seq<JsonView>, level: Seq<char>)
    ensures
        with_values(seen, values).contains(level) <==> (seen.contains(level) || values.contains(
            JsonView::Text(level),
        )),
    decreases values.len(),
{
    if values.len() > 0 {
        let front = values.drop_last();
        let before = with_values(seen, front);
        let after = with_values(seen, values);
        lemma_values_offered(seen, front, level);
        assert(values =~= front.push(values.last()));
        if values.contains(JsonView::Text(level)) {
            let i = choose|i: int| 0 <= i < values.len() && values[i] == JsonView::Text(level);
            if i < front.len() {
                assert(front[i] == values[i]);
                assert(front.contains(JsonView::Text(level)));
            }
        }
        if front.contains(JsonView::Text(level)) {
            let i = choose|i: int| 0 <= i < front.len() && front[i] == JsonView::Text(level);
            assert(values[i] == JsonView::Text(level));
        }
        if before.contains(level) {
            let i = choose|i: int| 0 <= i < before.len() && before[i] == level;
            assert(after[i] == level);
        }
        if after.contains(level) {
            let i = choose|i: int| 0 <= i < after.len() && after[i] == level;
            if i < before.len() {
                assert(before[i] == level);
            } else {
                assert(values[values.len() - 1] == JsonView::Text(level));
            }
        }
        if json::text_of(values.last()) == Some(level) {
            if !before.contains(level) {
                assert(after[after.len() - 1] == level);
            }
        }
    }
}

/// A model that does not reason is offered no level; one for which levels are listed is
/// offered just those; any other is offered the common ones.
pub proof fn law_levels_fit_the_model(reasoning: Option<bool>, levels: Seq<Seq<char>>)
    ensures
        options_for(Some(false), levels).options.len() == 0,
        !options_for(Some(false), levels).supports_reasoning,
        reasoning != Some(false) ==> options_for(reasoning, levels).supports_reasoning,
        reasoning != Some(false) && levels.len() > 0 ==> options_for(reasoning, levels).options
            == levels,
        reasoning != Some(false) ==> options_for(reasoning, Seq::empty()).options == seq![
            "minimal"@,
            "low"@,
            "medium"@,
            "high"@,
        ],
        options_for(Some(false), levels).source == "none"@,
        reasoning != Some(false) && levels.len() > 0 ==> options_for(reasoning, levels).source
            == "models.dev"@,
        reasoning != Some(false) ==> options_for(reasoning, Seq::empty()).source == "openai"@,
{
}

/// Whether `id` holds `names[k]` and none of the names before it.
pub open spec fn goes_by(id: Seq<char>, names: Seq<Seq<char>>, k: int) -> bool {
    &&& 0 <= k < names.len()
    &&& text::has(id, names[k])
    &&& forall|j: int| 0 <= j < k ==> !text::has(id, #[trigger] names[j])
}

/// The names in the table, each before those that are a part of it.
pub open spec fn listed_names() -> Seq<Seq<char>> {
    seq![
        "llama-v3p1-405b"@,
        "llama-v3p1-70b"@,
        "llama-v3p3-70b"@,
        "llama-v3p1-8b"@,
        "llama-v3p2-3b"@,
        "llama-v3p2-1b"@,
        "mixtral-8x22b"@,
        "mixtral-8x7b"@,
        "qwen2p5-coder-32b"@,
        "qwen2p5-72b"@,
        "qwen2p5-7b"@,
        "deepseek-r1"@,
        "deepseek-v3"@,
        "firefunction-v2"@,
        "kimi-k2"@,
        "codestral"@,
        "gpt-4o-mini"@,
        "gpt-4o"@,
        "gpt-4.1-mini"@,
        "gpt-4.1"@,
        "gpt-4-turbo"@,
        "gpt-3.5-turbo"@,
        "o1-mini"@,
        "o3-mini"@,
        "o1"@,
        "llama"@,
        "qwen"@,
        "deepseek"@,
        "mixtral"@,
        "gemma"@,
        "gpt-4"@,
    ]
}

/// The context windows in the table, in the order of the names.
pub open spec fn listed_windows() -> Seq<int> {
    seq![
        131_072,
        131_072,
        131_072,
        131_072,
        131_072,
        131_072,
        65_536,
        32_768,
        32_768,
        32_768,
        32_768,
        163_840,
        163_840,
        32_768,
        131_072,
        32_768,
        128_000,
        128_000,
        1_047_576,
        1_047_576,
        128_000,
        16_385,
        128_000,
        200_000,
        200_000,
        131_072,
        32_768,
        163_840,
        32_768,
        8_192,
        128_000,
    ]
}

/// The rates in the table for prompt and reply, in cents per million tokens, of the names
/// that have them, in the order of the names.
pub open spec fn listed_rates() -> Seq<(int, int)> {
    seq![
        (300, 300),
        (90, 90),
        (90, 90),
        (20, 20),
        (10, 10),
        (10, 10),
        (120, 120),
        (50, 50),
        (90, 90),
        (90, 90),
        (20, 20),
        (300, 800),
        (90, 90),
        (90, 90),
        (60, 250),
        (20, 60),
        (15, 60),
        (250, 1000),
        (40, 160),
        (200, 800),
        (1000, 3000),
        (50, 150),
        (110, 440),
        (110, 440),
        (1500, 6000),
    ]
}

/// An id is looked up by the first name in the table that it holds, so that a small model
/// is not taken for the large one whose name it bears: it gets the context window of that
/// entry, and its rates, where it has any. An id that holds none is not in the table.
pub proof fn law_first_name_decides(id: Seq<char>, k: int)
    ensures
        goes_by(id, listed_names(), k) ==> {
            &&& table(id) is Some
            &&& table(id)->0.context_window == listed_windows()[k]
            &&& k < listed_rates().len() ==> table(id)->0.input == Some(
                Rate::Cents(listed_rates()[k].0 as u32),
            ) && table(id)->0.output == Some(Rate::Cents(listed_rates()[k].1 as u32))
            &&& k >= listed_rates().len() ==> table(id)->0.input is None && table(
                id,
            )->0.output is None
        },
        (forall|j: int| 0 <= j < listed_names().len() ==> !text::has(id, #[trigger] listed_names()[j]))
            ==> table(id) is None,
{
    let names = listed_names();
    assert(names[0] == "llama-v3p1-405b"@);
    assert(names[1] == "llama-v3p1-70b"@);
    assert(names[2] == "llama-v3p3-70b"@);
    assert(names[3] == "llama-v3p1-8b"@);
    assert(names[4] == "llama-v3p2-3b"@);
    assert(names[5] == "llama-v3p2-1b"@);
    assert(names[6] == "mixtral-8x22b"@);
    assert(names[7] == "mixtral-8x7b"@);
    assert(names[8] == "qwen2p5-coder-32b"@);
    assert(names[9] == "qwen2p5-72b"@);
    assert(names[10] == "qwen2p5-7b"@);
    assert(names[11] == "deepseek-r1"@);
    assert(names[12] == "deepseek-v3"@);
    assert(names[13] == "firefunction-v2"@);
    assert(names[14] == "kimi-k2"@);
    assert(names[15] == "codestral"@);
    assert(names[16] == "gpt-4o-mini"@);
    assert(names[17] == "gpt-4o"@);
    assert(names[18] == "gpt-4.1-mini"@);
    assert(names[19] == "gpt-4.1"@);
    assert(names[20] == "gpt-4-turbo"@);
    assert(names[21] == "gpt-3.5-turbo"@);
    assert(names[22] == "o1-mini"@);
    assert(names[23] == "o3-mini"@);
    assert(names[24] == "o1"@);
    assert(names[25] == "llama"@);
    assert(names[26] == "qwen"@);
    assert(names[27] == "deepseek"@);
    assert(names[28] == "mixtral"@);
    assert(names[29] == "gemma"@);
    assert(names[30] == "gpt-4"@);
}

/// A row of the catalog that tells neither a rate nor a context window makes no difference
/// to what a model costs, nor to where that is said to come from.
pub proof fn law_silent_row_makes_no_difference(
    model_id: Seq<char>,
    over: Option<ModelOverride>,
    row: PriceView,
)
    requires
        row.input is None,
        row.output is None,
        row.context_window is None,
        row.cache_read is None,
        row.cache_write is None,
    ensures
        resolved(model_id, over, Some(row)) == resolved(model_id, over, None),
{
}

/// The host of an address is what stands between `://` and the next slash, in whatever
/// letters.
pub proof fn law_host_is_found(scheme: Seq<char>, name: Seq<char>, path: Seq<char>)
    requires
        !name.contains('/'),
        path.len() > 0 ==> path[0] == '/',
        forall|i: int|
            0 <= i < scheme.len() ==> !#[trigger] text::occurs_at(
                scheme + "://"@ + name + path,
                "://"@,
                i,
            ),
    ensures
        host(scheme + "://"@ + name + path) == text::lower(name),
{
    let url = scheme + "://"@ + name + path;
    let n = scheme.len() as int;
    let mark = "://"@;
    assert(url.subrange(n, n + mark.len()) =~= mark);
    text::law_rest_follows_the_first(url, mark, n);
    let rest = name + path;
    assert(url.skip(n + mark.len()) =~= rest);
    let set: Seq<char> = seq!['/'];
    let p = text::among(set);
    assert(set[0] == '/');
    assert forall|i: int| 0 <= i < name.len() implies !p(#[trigger] rest[i]) by {
        assert(rest[i] == name[i]);
        assert(name.contains(name[i]));
        if set.contains(rest[i]) {
            let k = choose|k: int| 0 <= k < set.len() && set[k] == rest[i];
            assert(k == 0);
        }
    }
    if path.len() > 0 {
        assert(rest[name.len() as int] == '/');
        assert(set.contains('/'));
        text::lemma_find_is(rest, p, name.len() as int);
        assert(rest.take(name.len() as int) =~= name);
    } else {
        assert(rest =~= name);
        text::lemma_find_none(rest, p);
    }
}

} // verus!
