use pi_chat::config::{AppConfig, ModelOverride};
use pi_chat::json;
use pi_chat::json::Json;
use pi_chat::pricing::{
    bill, bundled_for, host_of, merge_price, parse_provider_models, provider_id_for, provider_key,
    provider_rows, refreshed, resolve_with_cache, thinking_options_for, CachedPrice, ModelMeta,
    Pricing, Rate, DEFAULT_CONTEXT_WINDOW,
};

const SAMPLE: &str = r#"{
  "fireworks-ai": {
    "id": "fireworks-ai",
    "api": "https://api.fireworks.ai/inference/v1",
    "models": {
      "accounts/fireworks/models/deepseek-v4-pro-0813": {
        "name": "DeepSeek V4 Pro 0813",
        "reasoning": true,
        "reasoning_options": [
          { "type": "toggle" },
          { "type": "effort", "values": ["high", "max"] }
        ],
        "cost": { "input": 1.32, "output": 3.96, "cache_read": 0.044 },
        "limit": { "context": 1000000, "output": 384000 }
      },
      "accounts/fireworks/routers/kimi-k3-fast": {
        "name": "Kimi K3 Fast",
        "cost": { "input": 4.5, "output": 22.5, "cache_read": 0.45 },
        "limit": { "context": 1048576, "output": 131072 }
      },
      "accounts/fireworks/models/free-but-contextless": {
        "name": "No price or limit"
      }
    }
  }
}"#;

fn root() -> Json {
    json::parse(SAMPLE).unwrap()
}

fn dollars(rate: Rate) -> f64 {
    match rate {
        Rate::Cents(c) => c as f64 / 100.0,
        Rate::Double(bits) => f64::from_bits(bits),
    }
}

fn value(rate: Option<Rate>) -> Option<f64> {
    rate.map(dollars)
}

fn rate(x: f64) -> Option<Rate> {
    Some(Rate::Double(x.to_bits()))
}

fn unset() -> ModelOverride {
    ModelOverride {
        context_window: None,
        input_per_million: None,
        output_per_million: None,
        cache_read_per_million: None,
        cache_write_per_million: None,
    }
}

fn resolve(model_id: &str, config: &AppConfig) -> Pricing {
    resolve_with_cache(model_id, config, None)
}

fn cost_of_usage(usage: &Json, pricing: &Pricing) -> Option<f64> {
    let b = bill(usage, pricing)?;
    Some(
        (b.uncached as f64 * dollars(b.input_rate)
            + b.cached as f64 * dollars(b.cache_read_rate)
            + b.cache_write as f64 * dollars(b.cache_write_rate)
            + b.completion as f64 * dollars(b.output_rate))
            / 1_000_000.0,
    )
}

#[test]
fn matches_provider_by_base_url_and_parses_models() {
    let root = root();
    let id = provider_id_for("https://api.fireworks.ai/inference/v1/", &root).unwrap();
    assert_eq!(id, "fireworks-ai");

    let rows = parse_provider_models(root.get("fireworks-ai").unwrap());
    // Name-only models are cached too (for the picker / system prompt).
    assert_eq!(rows.len(), 3);
    let (_, ds) = rows
        .iter()
        .find(|(id, _)| id == "accounts/fireworks/models/deepseek-v4-pro-0813")
        .unwrap();
    assert_eq!(value(ds.input), Some(1.32));
    assert_eq!(value(ds.output), Some(3.96));
    assert_eq!(value(ds.cache_read), Some(0.044));
    assert_eq!(value(ds.cache_write), None);
    assert_eq!(ds.context_window, Some(1_000_000));
    assert_eq!(ds.name.as_deref(), Some("DeepSeek V4 Pro 0813"));
    assert_eq!(ds.reasoning, Some(true));
    assert_eq!(
        ds.reasoning_options.as_deref(),
        Some(r#"[{"type":"toggle"},{"type":"effort","values":["high","max"]}]"#)
    );
}

#[test]
fn provider_match_falls_back_to_host() {
    let root = root();
    let id = provider_id_for("https://api.fireworks.ai/v1", &root).unwrap();
    assert_eq!(id, "fireworks-ai");
    assert!(provider_id_for("http://localhost:1234/v1", &root).is_none());
}

#[test]
fn exact_match_beats_an_earlier_host_match() {
    let root =
        json::parse(r#"{"a": {"api": "http://h/one"}, "b": {"api": "http://h/two/"}}"#).unwrap();
    assert_eq!(provider_id_for("http://h/two", &root).as_deref(), Some("b"));
    assert_eq!(provider_id_for("http://h/three", &root).as_deref(), Some("a"));
    assert_eq!(provider_id_for("http://h", &json::parse("[]").unwrap()), None);
}

#[test]
fn rows_of_a_provider_or_why_there_are_none() {
    let (id, rows) = provider_rows("https://api.fireworks.ai/inference/v1", &root()).unwrap();
    assert_eq!((id.as_str(), rows.len()), ("fireworks-ai", 3));
    assert_eq!(
        provider_rows("http://x", &root()).unwrap_err(),
        "No models.dev provider matches http://x — prices stay on the bundled defaults."
    );
    let empty = json::parse(r#"{"p": {"api": "http://x", "models": {"m": {}}}}"#).unwrap();
    assert_eq!(
        provider_rows("http://x", &empty).unwrap_err(),
        "models.dev has no priced models for 'p'."
    );
    let done = refreshed(id, rows.len());
    assert_eq!((done.provider.as_str(), done.count), ("fireworks-ai", 3));
    assert!(done.fetched_at > 1_600_000_000_000);
}

#[test]
fn bundled_match_is_case_insensitive_and_specific_first() {
    let p = resolve("accounts/fireworks/models/llama-v3p1-8b-instruct", &AppConfig::default());
    assert_eq!(p.context_window, 131_072);
    assert_eq!(value(p.input_per_million), Some(0.20));
    assert_eq!(p.source, "bundled");
    assert!(!p.overridden);
}

#[test]
fn table_rows() {
    let find = |id: &str| {
        let b = bundled_for(id).unwrap();
        (b.context_window, value(b.input), value(b.output))
    };
    assert_eq!(find("GPT-4o-mini-2024"), (128_000, Some(0.15), Some(0.60)));
    assert_eq!(find("gpt-4o"), (128_000, Some(2.50), Some(10.00)));
    assert_eq!(find("o1-preview"), (200_000, Some(15.00), Some(60.00)));
    assert_eq!(find("gpt-4-0314"), (128_000, None, None));
    assert_eq!(find("kimi-k2"), (131_072, Some(0.60), Some(2.50)));
    assert!(bundled_for("my-own-model").is_none());
}

#[test]
fn unknown_model_gets_default_window_and_no_rates() {
    let p = resolve("some-local/unknown-model", &AppConfig::default());
    assert_eq!(p.context_window, DEFAULT_CONTEXT_WINDOW);
    assert_eq!(value(p.input_per_million), None);
    assert_eq!(p.source, "default");
}

#[test]
fn override_beats_the_bundle() {
    let mut config = AppConfig::default();
    config.model_overrides.push((
        "my-model".into(),
        ModelOverride {
            context_window: Some(8_000),
            input_per_million: rate(1.5),
            output_per_million: rate(3.0),
            cache_read_per_million: rate(0.15),
            cache_write_per_million: rate(1.9),
        },
    ));
    let p = resolve("my-model", &config);
    assert_eq!(p.context_window, 8_000);
    assert_eq!(value(p.input_per_million), Some(1.5));
    assert_eq!(value(p.output_per_million), Some(3.0));
    assert_eq!(value(p.cache_read_per_million), Some(0.15));
    assert_eq!(value(p.cache_write_per_million), Some(1.9));
    assert!(p.overridden);
    assert_eq!(p.source, "override");
}

#[test]
fn an_override_that_sets_nothing_is_none() {
    let mut config = AppConfig::default();
    for name in ["my-model", "gpt-4o"] {
        config.model_overrides.push((
            name.into(),
            ModelOverride {
                context_window: None,
                input_per_million: None,
                output_per_million: None,
                cache_read_per_million: None,
                cache_write_per_million: None,
            },
        ));
    }
    let p = resolve("my-model", &config);
    assert!(!p.overridden);
    assert_eq!(p.source, "default");
    assert_eq!(p.context_window, 200_000);
    assert_eq!(value(p.input_per_million), None);
    let p = resolve("gpt-4o", &config);
    assert!(!p.overridden);
    assert_eq!(p.source, "bundled");
    assert_eq!(value(p.input_per_million), Some(2.50));
}

#[test]
fn fetched_cache_beats_bundle_but_loses_to_override() {
    let config = AppConfig::default();
    let cached = CachedPrice {
        input: rate(9.99),
        output: rate(8.88),
        cache_read: rate(1.0),
        cache_write: None,
        context_window: Some(42_000),
        ..Default::default()
    };
    let p = resolve_with_cache(
        "accounts/fireworks/models/llama-v3p1-8b-instruct",
        &config,
        Some(cached.clone()),
    );
    assert_eq!(p.source, "fetched");
    assert_eq!(value(p.input_per_million), Some(9.99));
    assert_eq!(p.context_window, 42_000);
    assert_eq!(value(p.cache_read_per_million), Some(1.0));
    assert_eq!(value(p.cache_write_per_million), None);

    let mut over = AppConfig::default();
    over.model_overrides.push((
        "accounts/fireworks/models/llama-v3p1-8b-instruct".into(),
        ModelOverride { input_per_million: rate(0.01), ..unset() },
    ));
    let p = resolve_with_cache(
        "accounts/fireworks/models/llama-v3p1-8b-instruct",
        &over,
        Some(cached),
    );
    assert_eq!(p.source, "override");
    assert_eq!(value(p.input_per_million), Some(0.01));
    // Output falls through to the fetched row (override only set input).
    assert_eq!(value(p.output_per_million), Some(8.88));
}

#[test]
fn a_row_with_a_name_alone_counts_as_none() {
    let named = CachedPrice { name: Some("N".into()), ..Default::default() };
    let p = resolve_with_cache("gpt-4o", &AppConfig::default(), Some(named));
    assert_eq!(p.source, "bundled");
}

#[test]
fn cost_of_usage_bills_cache_buckets_without_overlap() {
    let pricing = Pricing {
        model_id: "m".into(),
        context_window: 1000,
        input_per_million: rate(1.0),
        output_per_million: rate(2.0),
        cache_read_per_million: rate(0.1),
        cache_write_per_million: rate(1.5),
        overridden: false,
        source: "override".into(),
    };
    // 100 prompt = 40 cache-read + 20 cache-write + 40 uncached, 10 output.
    let usage = json::parse(
        r#"{
            "prompt_tokens": 100,
            "completion_tokens": 10,
            "cached_tokens": 40,
            "cache_write_tokens": 20
        }"#,
    )
    .unwrap();
    let cost = cost_of_usage(&usage, &pricing).unwrap();
    let expected = (40.0 * 1.0 + 40.0 * 0.1 + 20.0 * 1.5 + 10.0 * 2.0) / 1_000_000.0;
    assert!((cost - expected).abs() < 1e-12);
}

#[test]
fn parts_of_a_bill_make_up_the_prompt() {
    let pricing = Pricing {
        model_id: "m".into(),
        context_window: 1,
        input_per_million: rate(1.0),
        output_per_million: rate(2.0),
        cache_read_per_million: None,
        cache_write_per_million: None,
        overridden: false,
        source: "default".into(),
    };
    let usage = json::parse(
        r#"{"prompt_tokens": 100, "cached_tokens": 70, "cache_write_tokens": 50,
            "completion_tokens": -4}"#,
    )
    .unwrap();
    let b = bill(&usage, &pricing).unwrap();
    assert_eq!((b.uncached, b.cached, b.cache_write, b.completion), (0, 70, 30, 0));
    assert_eq!(dollars(b.cache_read_rate), 1.0);
    assert_eq!(dollars(b.cache_write_rate), 1.0);
    let usage = json::parse(r#"{"prompt_tokens": 10, "cached_tokens": 99}"#).unwrap();
    let b = bill(&usage, &pricing).unwrap();
    assert_eq!((b.uncached, b.cached, b.cache_write), (0, 10, 0));
}

#[test]
fn cost_of_usage_is_none_without_rates() {
    let pricing = Pricing {
        model_id: "m".into(),
        context_window: 1000,
        input_per_million: None,
        output_per_million: None,
        cache_read_per_million: None,
        cache_write_per_million: None,
        overridden: false,
        source: "default".into(),
    };
    let usage = json::parse(r#"{ "prompt_tokens": 10 }"#).unwrap();
    assert!(cost_of_usage(&usage, &pricing).is_none());
}

#[test]
fn host_parsing() {
    assert_eq!(host_of("https://api.fireworks.ai/inference/v1"), "api.fireworks.ai");
    assert_eq!(host_of("http://localhost:1234/v1"), "localhost:1234");
}

#[test]
fn host_parsing_edge_cases() {
    assert_eq!(host_of("API.Example/x"), "api.example");
    assert_eq!(host_of(""), "");
    assert_eq!(host_of("a://b://c"), "b:");
    assert_eq!(provider_key("http://x/v1//"), "http://x/v1");
}

#[test]
fn merging_keeps_what_did_not_come() {
    let before = CachedPrice {
        input: rate(1.0),
        context_window: Some(5),
        name: Some("old".into()),
        reasoning: Some(true),
        reasoning_options: Some("[]".into()),
        ..Default::default()
    };
    let new = CachedPrice { output: rate(2.0), name: Some("new".into()), ..Default::default() };
    let m = merge_price(Some(before), new);
    assert_eq!((value(m.input), value(m.output)), (None, Some(2.0)));
    assert_eq!(m.context_window, Some(5));
    assert_eq!(m.name.as_deref(), Some("new"));
    assert_eq!(m.reasoning, Some(true));
    assert_eq!(m.reasoning_options.as_deref(), Some("[]"));
}

#[test]
fn thinking_options_prefer_models_dev_effort_values() {
    let meta = ModelMeta {
        name: Some("DeepSeek V4 Pro 0813".into()),
        reasoning: Some(true),
        reasoning_options: Some(
            r#"[{"type":"toggle"},{"type":"effort","values":["high","max"]}]"#.into(),
        ),
    };
    let opts = thinking_options_for(Some(meta));
    assert_eq!(opts.source, "models.dev");
    assert_eq!(opts.options, vec!["high", "max"]);
    assert!(opts.supports_reasoning);
}

#[test]
fn thinking_options_list_each_level_once() {
    let meta = ModelMeta {
        name: None,
        reasoning: None,
        reasoning_options: Some(
            r#"[{"type":"effort","values":["b",1,"a","b"]},{"type":"effort","values":["a","c"]}]"#
                .into(),
        ),
    };
    assert_eq!(thinking_options_for(Some(meta)).options, vec!["b", "a", "c"]);
}

#[test]
fn thinking_options_fall_back_to_openai_levels() {
    // Known model with no effort values (toggle only) → OpenAI set.
    let toggle = ModelMeta {
        name: None,
        reasoning: Some(true),
        reasoning_options: Some(r#"[{"type":"toggle"}]"#.into()),
    };
    let opts = thinking_options_for(Some(toggle));
    assert_eq!(opts.source, "openai");
    assert_eq!(opts.options, vec!["minimal", "low", "medium", "high"]);

    // Unknown model → OpenAI set.
    let unknown = thinking_options_for(None);
    assert_eq!(unknown.source, "openai");
    assert!(unknown.supports_reasoning);
}

#[test]
fn thinking_options_empty_for_non_reasoning_models() {
    let meta = ModelMeta { name: None, reasoning: Some(false), reasoning_options: None };
    let opts = thinking_options_for(Some(meta));
    assert_eq!(opts.source, "none");
    assert!(opts.options.is_empty());
    assert!(!opts.supports_reasoning);
}

#[test]
fn the_address_comes_before_the_host() {
    let root = json::parse(
        r#"{"a":{"api":"https://x.example/other"},"b":{"api":"https://X.example/v1/"},"c":{}}"#,
    )
    .unwrap();
    assert_eq!(provider_id_for("https://X.example/v1", &root).as_deref(), Some("b"));
    assert_eq!(provider_id_for("https://x.example/v2", &root).as_deref(), Some("a"));
    assert_eq!(provider_id_for("https://y.example/v1", &root), None);
    assert_eq!(provider_id_for("https://x.example", &Json::Null), None);
}

#[test]
fn nothing_is_known_by_default() {
    assert!(ModelMeta::default().name.is_none());
    assert_eq!(ModelOverride::default(), unset());
    assert!(CachedPrice::default().input.is_none());
}
