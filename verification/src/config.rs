//! The configuration of the client.
use vstd::prelude::*;
use vstd::string::*;

use crate::json;
use crate::json::{Json, JsonView};
use crate::keyed;
use crate::pricing::Rate;
use crate::text;

verus! {

/// What the user sets for a model in place of what is known of it.
#[derive(PartialEq, Eq, Structural, Clone, Copy, Debug)]
pub struct ModelOverride {
    pub context_window: Option<u64>,
    pub input_per_million: Option<Rate>,
    pub output_per_million: Option<Rate>,
    pub cache_read_per_million: Option<Rate>,
    pub cache_write_per_million: Option<Rate>,
}

impl Default for ModelOverride {
    /// Nothing is set.
    fn default() -> (r: Self)
        ensures
            r == (ModelOverride {
                context_window: None,
                input_per_million: None,
                output_per_million: None,
                cache_read_per_million: None,
                cache_write_per_million: None,
            }),
    {
        ModelOverride {
            context_window: None,
            input_per_million: None,
            output_per_million: None,
            cache_read_per_million: None,
            cache_write_per_million: None,
        }
    }
}

/// The configuration of the client. The API key is not part of it: it is kept in the
/// system's keychain.
pub struct AppConfig {
    pub base_url: String,
    pub model: String,
    /// What the user wants said at the top of every prompt.
    pub preferences: String,
    /// How much the model is to reason; empty for what the provider does by itself.
    pub thinking_level: String,
    /// What the user sets for models, by their ids.
    pub model_overrides: Vec<(String, ModelOverride)>,
    /// Whether the reasoning of a round is sent back with its tool calls.
    pub echo_reasoning_content: bool,
}

impl Default for AppConfig {
    /// The configuration that holds before the user has set anything.
    fn default() -> (r: Self)
        ensures
            r.base_url@ == "https://api.fireworks.ai/inference/v1"@,
            r.model@ == "accounts/fireworks/models/llama-v3p1-8b-instruct"@,
            r.preferences@.len() == 0,
            r.thinking_level@.len() == 0,
            r.model_overrides@.len() == 0,
            r.echo_reasoning_content,
    {
        AppConfig {
            base_url: "https://api.fireworks.ai/inference/v1".to_owned(),
            model: "accounts/fireworks/models/llama-v3p1-8b-instruct".to_owned(),
            preferences: String::new(),
            thinking_level: String::new(),
            model_overrides: Vec::new(),
            echo_reasoning_content: true,
        }
    }
}

impl AppConfig {
    /// What the user sets for a model.
    pub open spec fn override_of(&self, model_id: Seq<char>) -> Option<ModelOverride> {
        keyed::lookup(keyed::pairs(self.model_overrides@), model_id)
    }
}

/// The API key that an old configuration holds and that is to be moved to the keychain:
/// none where it is blank, or where the keychain has one.
pub open spec fn key_to_move(raw: JsonView, already_set: bool) -> Option<Seq<char>> {
    match json::member_text(raw, "apiKey"@) {
        Some(key) => if text::blank(key) || already_set {
            None
        } else {
            Some(key)
        },
        None => None,
    }
}

/// The API key that an old configuration holds and that is to be moved to the keychain.
pub fn migrate_legacy_api_key(raw: &Json, already_set: bool) -> (r: Option<String>)
    ensures
        text::opt_text(r) == key_to_move(raw@, already_set),
{
    match raw.get_str("apiKey") {
        Some(key) => if text::is_blank(key) || already_set {
            None
        } else {
            Some(key.to_owned())
        },
        None => None,
    }
}

/// The API key that is to be moved out of the text of an old configuration. A text that is
/// no JSON holds none.
pub open spec fn legacy_key_in(parsed: Option<JsonView>, already_set: bool) -> Option<Seq<char>> {
    match parsed {
        Some(raw) => key_to_move(raw, already_set),
        None => None,
    }
}

/// The API key that is to be moved out of the text of an old configuration.
pub fn legacy_key(text: &str, already_set: bool) -> (r: Option<String>)
    ensures
        text::opt_text(r) == legacy_key_in(json::json_parse(text@), already_set),
{
    match json::parse(text) {
        Some(raw) => migrate_legacy_api_key(&raw, already_set),
        None => None,
    }
}

/// A key in an old configuration is moved as it stands there, unless the keychain has one;
/// it is never moved over one that is there, and nothing is moved where there is none, or
/// only white space.
pub proof fn law_old_key_is_moved(raw: JsonView, key: Seq<char>, i: int)
    requires
        json::member(raw, "apiKey"@) == Some(JsonView::Text(key)),
    ensures
        0 <= i < key.len() && !text::is_space(key[i]) ==> legacy_key_in(Some(raw), false) == Some(
            key,
        ),
        (forall|k: int| 0 <= k < key.len() ==> text::is_space(#[trigger] key[k]))
            ==> legacy_key_in(Some(raw), false) is None,
        legacy_key_in(Some(raw), true) is None,
{
    if 0 <= i < key.len() && !text::is_space(key[i]) {
        text::lemma_not_blank(key, i);
    }
    if !text::blank(key) {
        text::lemma_some_character(key);
    }
}

/// A configuration without a key, or that is no JSON, has none to move.
pub proof fn law_no_key_is_made_up(raw: JsonView, already_set: bool)
    requires
        json::member_text(raw, "apiKey"@) is None,
    ensures
        legacy_key_in(Some(raw), already_set) is None,
        legacy_key_in(None, already_set) is None,
{
}

} // verus!
