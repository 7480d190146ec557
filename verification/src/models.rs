//! The models that an endpoint offers for chatting.
use vstd::prelude::*;
use vstd::string::*;

use crate::json;
use crate::json::{Json, JsonView};
use crate::keyed;
use crate::text;

verus! {

/// A model as it is offered to the user.
#[derive(PartialEq, Debug)]
pub struct ModelInfo {
    pub id: String,
    /// The name under which the model is shown, where one is known.
    pub name: Option<String>,
}

/// What the offer of a model holds.
#[verifier::ext_equal]
pub struct ModelView {
    pub id: Seq<char>,
    pub name: Option<Seq<char>>,
}

impl View for ModelInfo {
    type V = ModelView;

    open spec fn view(&self) -> ModelView {
        ModelView { id: self.id@, name: text::opt_text(self.name) }
    }
}

/// What the offers hold.
pub open spec fn model_views(v: Seq<ModelInfo>) -> Seq<ModelView> {
    Seq::new(v.len(), |i: int| v[i]@)
}

/// What stands in the ids of models that are for something else than chatting.
pub open spec fn other_hints() -> Seq<Seq<char>> {
    seq![
        "embedding"@,
        "embed-"@,
        "whisper"@,
        "tts"@,
        "speech"@,
        "voice"@,
        "rerank"@,
        "stable-diffusion"@,
        "sdxl"@,
        "sd3"@,
        "flux"@,
        "image-gen"@,
        "moderation"@,
        "guardrail"@,
        "guard-"@,
    ]
}

/// Whether a model is for chatting, as far as its id tells.
pub open spec fn for_chat(id: Seq<char>) -> bool {
    forall|i: int|
        0 <= i < other_hints().len() ==> !text::has(text::lower(id), #[trigger] other_hints()[i])
}

/// Whether a model is for chatting, as far as its id tells.
pub fn is_likely_chat(id: &str) -> (r: bool)
    ensures
        r == for_chat(id@),
{
    let lower = text::to_lower(id);
    let hints: Vec<String> = vec![
        "embedding".to_owned(),
        "embed-".to_owned(),
        "whisper".to_owned(),
        "tts".to_owned(),
        "speech".to_owned(),
        "voice".to_owned(),
        "rerank".to_owned(),
        "stable-diffusion".to_owned(),
        "sdxl".to_owned(),
        "sd3".to_owned(),
        "flux".to_owned(),
        "image-gen".to_owned(),
        "moderation".to_owned(),
        "guardrail".to_owned(),
        "guard-".to_owned(),
    ];
    assert(text::texts(hints@) =~= other_hints());
    let mut i: usize = 0;
    while i < hints.len()
        invariant
            i <= hints@.len(),
            text::texts(hints@) == other_hints(),
            lower@ == text::lower(id@),
            forall|k: int| 0 <= k < i ==> !text::has(lower@, #[trigger] other_hints()[k]),
        decreases hints@.len() - i,
    {
        assert(other_hints()[i as int] == hints@[i as int]@);
        if text::contains(lower.as_str(), hints[i].as_str()) {
            return false;
        }
        i += 1;
    }
    true
}

/// The ids of models that are for chatting, in the order in which they come.
pub open spec fn chat_only(ids: Seq<Seq<char>>) -> Seq<Seq<char>>
    decreases ids.len(),
{
    if ids.len() == 0 {
        Seq::empty()
    } else {
        let before = chat_only(ids.drop_last());
        if for_chat(ids.last()) {
            before.push(ids.last())
        } else {
            before
        }
    }
}

/// The ids of models that are for chatting.
pub fn filter_chat(ids: &Vec<String>) -> (r: Vec<String>)
    ensures
        text::texts(r@) == chat_only(text::texts(ids@)),
{
    let ghost t = text::texts(ids@);
    let mut out: Vec<String> = Vec::new();
    let mut i: usize = 0;
    assert(t.take(0) =~= Seq::<Seq<char>>::empty());
    assert(text::texts(out@) =~= chat_only(t.take(0)));
    while i < ids.len()
        invariant
            i <= ids@.len(),
            t == text::texts(ids@),
            text::texts(out@) == chat_only(t.take(i as int)),
        decreases ids@.len() - i,
    {
        assert(t.take(i + 1).drop_last() =~= t.take(i as int));
        assert(t.take(i + 1).last() == ids@[i as int]@);
        if is_likely_chat(ids[i].as_str()) {
            let id = ids[i].clone();
            proof {
                text::lemma_texts_push(out@, id);
            }
            out.push(id);
        }
        i += 1;
    }
    assert(t.take(i as int) =~= t);
    out
}

/// Whether texts are in order, each once.
pub open spec fn in_order(s: Seq<Seq<char>>) -> bool {
    forall|i: int, j: int|
        0 <= i < j < s.len() ==> keyed::before(#[trigger] s[i], #[trigger] s[j])
}

/// The ids that are for chatting, in order, each once.
pub fn chat_models(ids: &Vec<String>) -> (r: Vec<String>)
    ensures
        in_order(text::texts(r@)),
        forall|id: Seq<char>| #[trigger]
            text::texts(r@).contains(id) == (text::texts(ids@).contains(id) && for_chat(id)),
{
    let ghost t = text::texts(ids@);
    let mut sorted: Vec<(String, bool)> = Vec::new();
    let mut i: usize = 0;
    while i < ids.len()
        invariant
            i <= ids@.len(),
            t == text::texts(ids@),
            keyed::increasing(keyed::pairs(sorted@)),
            forall|id: Seq<char>|
                (#[trigger] keyed::lookup(keyed::pairs(sorted@), id)) is Some == (t.take(
                    i as int,
                ).contains(id) && for_chat(id)),
        decreases ids@.len() - i,
    {
        let ghost before = keyed::pairs(sorted@);
        let ghost id = ids@[i as int]@;
        let ghost more = t.take(i + 1);
        assert(more =~= t.take(i as int).push(id));
        assert(more[i as int] == id);
        assert forall|k: Seq<char>| more.contains(k) == (t.take(i as int).contains(k) || k
            == id) by {
            if t.take(i as int).contains(k) {
                let j = choose|j: int| 0 <= j < i && t.take(i as int)[j] == k;
                assert(more[j] == k);
            }
            if more.contains(k) && k != id {
                let j = choose|j: int| 0 <= j <= i && more[j] == k;
                assert(t.take(i as int)[j] == k);
            }
        }
        if is_likely_chat(ids[i].as_str()) {
            proof {
                keyed::lemma_put(before, id, true);
            }
            keyed::put_under(&mut sorted, ids[i].as_str(), true);
        }
        i += 1;
    }
    assert(t.take(i as int) =~= t);
    let ghost p = keyed::pairs(sorted@);
    let mut out: Vec<String> = Vec::new();
    let mut k: usize = 0;
    while k < sorted.len()
        invariant
            k <= sorted@.len(),
            out@.len() == k,
            forall|j: int| 0 <= j < k ==> (#[trigger] out@[j])@ == sorted@[j].0@,
        decreases sorted@.len() - k,
    {
        out.push(sorted[k].0.clone());
        k += 1;
    }
    proof {
        let r = text::texts(out@);
        assert forall|i: int, j: int| 0 <= i < j < r.len() implies keyed::before(
            #[trigger] r[i],
            #[trigger] r[j],
        ) by {
            assert(keyed::before(p[i].0, p[j].0));
        }
        assert forall|id: Seq<char>| #[trigger] r.contains(id) == (t.contains(id) && for_chat(
            id,
        )) by {
            keyed::lemma_key_index(p, id);
            if r.contains(id) {
                let j = choose|j: int| 0 <= j < r.len() && r[j] == id;
                assert(p[j].0 == id);
            }
            match keyed::key_index(p, id) {
                Some(j) => {
                    assert(r[j] == id);
                },
                None => {},
            }
            assert(keyed::lookup(p, id) is Some == (t.contains(id) && for_chat(id)));
        }
    }
    out
}

/// There is one list in order for a set of texts.
pub proof fn law_order_decides(a: Seq<Seq<char>>, b: Seq<Seq<char>>)
    requires
        in_order(a),
        in_order(b),
        forall|s: Seq<char>| a.contains(s) == b.contains(s),
    ensures
        a == b,
    decreases a.len(),
{
    if a.len() == 0 {
        if b.len() > 0 {
            assert(b.contains(b[0]));
        }
    } else {
        assert(a.contains(a[0]));
        assert(b.contains(a[0]));
        assert(b.contains(b[0]));
        assert(a.contains(b[0]));
        let j = choose|j: int| 0 <= j < b.len() && b[j] == a[0];
        let i = choose|i: int| 0 <= i < a.len() && a[i] == b[0];
        if i > 0 && j > 0 {
            assert(keyed::before(a[0], a[i]));
            assert(keyed::before(b[0], b[j]));
            keyed::lemma_before_transitive(a[0], b[0], a[0]);
            keyed::lemma_before_irreflexive(a[0]);
        }
        assert(a[0] == b[0]);
        let ra = a.drop_first();
        let rb = b.drop_first();
        assert forall|x: int, y: int| 0 <= x < y < ra.len() implies keyed::before(
            #[trigger] ra[x],
            #[trigger] ra[y],
        ) by {
            assert(keyed::before(a[x + 1], a[y + 1]));
        }
        assert forall|x: int, y: int| 0 <= x < y < rb.len() implies keyed::before(
            #[trigger] rb[x],
            #[trigger] rb[y],
        ) by {
            assert(keyed::before(b[x + 1], b[y + 1]));
        }
        assert forall|s: Seq<char>| ra.contains(s) == rb.contains(s) by {
            lemma_rest(a, s);
            lemma_rest(b, s);
        }
        law_order_decides(ra, rb);
        assert(a =~= seq![a[0]] + ra);
        assert(b =~= seq![b[0]] + rb);
    }
}

/// What stands behind the first of texts in order.
proof fn lemma_rest(a: Seq<Seq<char>>, s: Seq<char>)
    requires
        in_order(a),
        a.len() > 0,
    ensures
        a.drop_first().contains(s) == (a.contains(s) && s != a[0]),
{
    let r = a.drop_first();
    if r.contains(s) {
        let i = choose|i: int| 0 <= i < r.len() && r[i] == s;
        assert(a[i + 1] == s);
        assert(keyed::before(a[0], a[i + 1]));
        keyed::lemma_before_irreflexive(s);
    }
    if a.contains(s) && s != a[0] {
        let i = choose|i: int| 0 <= i < a.len() && a[i] == s;
        assert(r[i - 1] == s);
    }
}

// ---------------------------------------------------------------------------
// The cache
// ---------------------------------------------------------------------------

/// The ids that an endpoint listed.
pub struct CachedModels {
    pub base_url: String,
    pub ids: Vec<String>,
}

/// The models of the endpoint that was asked last. Another endpoint finds nothing here.
pub struct ModelCache(pub Option<CachedModels>);

impl Default for ModelCache {
    /// A cache with nothing in it.
    fn default() -> (r: Self)
        ensures
            r.0 is None,
    {
        ModelCache(None)
    }
}

impl ModelCache {
    /// The models of an endpoint that are for chatting, if they are known.
    pub open spec fn known(&self, base_url: Seq<char>) -> Option<Seq<Seq<char>>> {
        match self.0 {
            Some(c) => if c.base_url@ == base_url {
                Some(chat_only(text::texts(c.ids@)))
            } else {
                None
            },
            None => None,
        }
    }

    /// The models of an endpoint that are for chatting, if they are known.
    pub fn get(&self, base_url: &str) -> (r: Option<Vec<String>>)
        ensures
            match r {
                Some(ids) => self.known(base_url@) == Some(text::texts(ids@)),
                None => self.known(base_url@) is None,
            },
    {
        match &self.0 {
            Some(c) => if text::same(c.base_url.as_str(), base_url) {
                Some(filter_chat(&c.ids))
            } else {
                None
            },
            None => None,
        }
    }

    /// Keeps the models of an endpoint, in place of those of any other.
    pub fn put(&mut self, base_url: String, ids: Vec<String>)
        ensures
            final(self).known(base_url@) == Some(chat_only(text::texts(ids@))),
            forall|other: Seq<char>|
                other != base_url@ ==> #[trigger] final(self).known(other) is None,
    {
        self.0 = Some(CachedModels { base_url, ids });
    }
}

// ---------------------------------------------------------------------------
// Names
// ---------------------------------------------------------------------------

/// The models with the names that are known of them.
pub open spec fn named(ids: Seq<Seq<char>>, names: Seq<(Seq<char>, Seq<char>)>) -> Seq<ModelView> {
    Seq::new(ids.len(), |i: int| ModelView { id: ids[i], name: keyed::lookup(names, ids[i]) })
}

/// What a text holds.
pub open spec fn string_view() -> spec_fn(String) -> Seq<char> {
    |s: String| s@
}

/// The models with the names that are known of them.
pub fn with_names(ids: &Vec<String>, names: &Vec<(String, String)>) -> (r: Vec<ModelInfo>)
    ensures
        model_views(r@) == named(
            text::texts(ids@),
            keyed::mapped(keyed::pairs(names@), string_view()),
        ),
{
    let ghost t = text::texts(ids@);
    let ghost n = keyed::mapped(keyed::pairs(names@), string_view());
    let mut out: Vec<ModelInfo> = Vec::new();
    let mut i: usize = 0;
    while i < ids.len()
        invariant
            i <= ids@.len(),
            t == text::texts(ids@),
            n == keyed::mapped(keyed::pairs(names@), string_view()),
            out@.len() == i,
            forall|k: int| 0 <= k < i ==> (#[trigger] out@[k])@ == named(t, n)[k],
        decreases ids@.len() - i,
    {
        proof {
            keyed::lemma_mapped(keyed::pairs(names@), string_view(), t[i as int]);
        }
        let name = match keyed::value_under(names, ids[i].as_str()) {
            Some(s) => Some(s.clone()),
            None => None,
        };
        out.push(ModelInfo { id: ids[i].clone(), name });
        i += 1;
    }
    assert(model_views(out@) =~= named(t, n));
    out
}

// ---------------------------------------------------------------------------
// Listing
// ---------------------------------------------------------------------------

/// What is to be done next to list the models of an endpoint.
pub enum ListStep {
    /// Show these, which are known.
    Show { ids: Vec<String> },
    /// Look the endpoint up in the catalog.
    Catalog,
    /// Ask the endpoint itself, with this key.
    Ask { key: String },
    /// Keep these, and show them.
    Keep { ids: Vec<String> },
    /// Say why there is no list.
    Fail { error: String },
}

/// The endpoint whose models are listed: its URL without the slashes at its end.
pub fn endpoint(base_url: &str) -> (r: String)
    ensures
        r@ == text::drop_trailing(base_url@, |c: char| c == '/'),
{
    text::trim_end_char(base_url, '/')
}

/// The first step: what is known is shown, unless the user wants it anew.
pub fn list_begins(cache: &ModelCache, base_url: &str, refresh: bool) -> (r: ListStep)
    ensures
        match r {
            ListStep::Show { ids } => !refresh && cache.known(base_url@) == Some(
                text::texts(ids@),
            ),
            ListStep::Catalog => refresh || cache.known(base_url@) is None,
            _ => false,
        },
{
    if !refresh {
        if let Some(ids) = cache.get(base_url) {
            return ListStep::Show { ids };
        }
    }
    ListStep::Catalog
}

/// Whether `r` are the ids among `ids` that are for chatting, in order, each once.
pub open spec fn sorted_chat(r: Seq<Seq<char>>, ids: Seq<Seq<char>>) -> bool {
    &&& in_order(r)
    &&& forall|id: Seq<char>| #[trigger] r.contains(id) == (ids.contains(id) && for_chat(id))
}

/// The step after the catalog was looked up. Where it has no model for chatting, the
/// endpoint is asked, which takes a key; `key` is looked at only there.
pub fn catalog_listed(ids: &Vec<String>, key: Result<Option<String>, String>) -> (r: ListStep)
    ensures
        match r {
            ListStep::Keep { ids: listed } => listed@.len() > 0 && sorted_chat(
                text::texts(listed@),
                text::texts(ids@),
            ),
            ListStep::Ask { key: k } => chat_only(text::texts(ids@)).len() == 0 && match key {
                Ok(Some(s)) => k@ == s@,
                _ => false,
            },
            ListStep::Fail { error } => chat_only(text::texts(ids@)).len() == 0 && match key {
                Ok(Some(_)) => false,
                Ok(None) => error@ == "API key not set — open Settings and add your key."@,
                Err(e) => error@ == e@,
            },
            _ => false,
        },
{
    let chat = filter_chat(ids);
    let ghost t = text::texts(ids@);
    if chat.len() > 0 {
        let listed = chat_models(ids);
        proof {
            lemma_chat_only(t);
            let c = chat_only(t);
            assert(text::texts(chat@).len() == chat@.len());
            assert(c.contains(c[0]));
            assert(text::texts(listed@).contains(c[0]));
        }
        return ListStep::Keep { ids: listed };
    }
    assert(text::texts(chat@).len() == 0);
    match key {
        Ok(Some(k)) => ListStep::Ask { key: k },
        Ok(None) => ListStep::Fail {
            error: "API key not set — open Settings and add your key.".to_owned(),
        },
        Err(error) => ListStep::Fail { error },
    }
}

/// The ids of models, where each has one.
pub open spec fn ids_of(items: Seq<JsonView>) -> Option<Seq<Seq<char>>>
    decreases items.len(),
{
    if items.len() == 0 {
        Some(Seq::empty())
    } else {
        match (ids_of(items.drop_last()), json::member_text(items.last(), "id"@)) {
            (Some(before), Some(id)) => Some(before.push(id)),
            _ => None,
        }
    }
}

/// The ids in what an endpoint says of its models, `{"data":[{"id":…},…]}`. Where it says
/// something else, there are none.
pub open spec fn ids_in(root: JsonView) -> Option<Seq<Seq<char>>> {
    match json::member_items(root, "data"@) {
        Some(items) => ids_of(items),
        None => None,
    }
}

/// The ids in what an endpoint says of its models, or that it cannot be read.
pub open spec fn ids_read(root: Option<JsonView>) -> Result<Seq<Seq<char>>, Seq<char>> {
    let ids = match root {
        Some(j) => ids_in(j),
        None => None,
    };
    match ids {
        Some(ids) => Ok(ids),
        None => Err("parse models: error decoding response body"@),
    }
}

/// Where one model has no id, they have none together.
proof fn lemma_ids_of(items: Seq<JsonView>, i: int)
    requires
        0 <= i <= items.len(),
        ids_of(items.take(i)) is None,
    ensures
        ids_of(items) is None,
    decreases items.len() - i,
{
    if i < items.len() {
        assert(items.take(i + 1).drop_last() =~= items.take(i));
        lemma_ids_of(items, i + 1);
    } else {
        assert(items.take(i) =~= items);
    }
}

/// The ids in what an endpoint says of its models.
pub fn model_ids(root: &Json) -> (r: Option<Vec<String>>)
    ensures
        match r {
            Some(ids) => ids_in(root@) == Some(text::texts(ids@)),
            None => ids_in(root@) is None,
        },
{
    let items = match root.get_array("data") {
        Some(items) => items,
        None => return None,
    };
    let ghost all = json::views(items@);
    let mut ids: Vec<String> = Vec::new();
    let mut i: usize = 0;
    assert(text::texts(ids@) =~= Seq::empty());
    while i < items.len()
        invariant
            i <= items@.len(),
            all == json::views(items@),
            json::member_items(root@, "data"@) == Some(all),
            ids_of(all.take(i as int)) == Some(text::texts(ids@)),
        decreases items@.len() - i,
    {
        let ghost next = all.take(i + 1);
        proof {
            assert(next.drop_last() =~= all.take(i as int));
            assert(next.last() == items@[i as int]@);
        }
        match items[i].get_str("id") {
            Some(id) => {
                let ghost before = text::texts(ids@);
                ids.push(id.to_owned());
                assert(text::texts(ids@) =~= before.push(id@));
            },
            None => {
                proof {
                    lemma_ids_of(all, i + 1);
                }
                return None;
            },
        }
        i += 1;
    }
    assert(all.take(i as int) =~= all);
    Some(ids)
}

/// Reads what an endpoint says of its models.
pub fn read_models(text: &str) -> (r: Result<Vec<String>, String>)
    ensures
        match r {
            Ok(ids) => ids_read(json::json_parse(text@)) == Ok::<Seq<Seq<char>>, Seq<char>>(
                text::texts(ids@),
            ),
            Err(e) => ids_read(json::json_parse(text@)) == Err::<Seq<Seq<char>>, Seq<char>>(e@),
        },
{
    let ids = match json::parse(text) {
        Some(root) => model_ids(&root),
        None => None,
    };
    match ids {
        Some(ids) => Ok(ids),
        None => Err("parse models: error decoding response body".to_owned()),
    }
}

/// The step after the endpoint was asked.
pub fn endpoint_listed(result: Result<Vec<String>, String>) -> (r: ListStep)
    ensures
        match (result, r) {
            (Ok(ids), ListStep::Keep { ids: listed }) => sorted_chat(
                text::texts(listed@),
                text::texts(ids@),
            ),
            (Err(e), ListStep::Fail { error }) => error@ == e@,
            _ => false,
        },
{
    match result {
        Ok(ids) => ListStep::Keep { ids: chat_models(&ids) },
        Err(error) => ListStep::Fail { error },
    }
}

/// What is for chatting among ids is what is listed of them.
proof fn lemma_chat_only(ids: Seq<Seq<char>>)
    ensures
        forall|id: Seq<char>| #[trigger]
            chat_only(ids).contains(id) == (ids.contains(id) && for_chat(id)),
    decreases ids.len(),
{
    let c = chat_only(ids);
    if ids.len() > 0 {
        let rest = ids.drop_last();
        lemma_chat_only(rest);
        assert forall|id: Seq<char>| #[trigger] c.contains(id) == (ids.contains(id) && for_chat(
            id,
        )) by {
            assert(ids =~= rest.push(ids.last()));
            if c.contains(id) {
                let i = choose|i: int| 0 <= i < c.len() && c[i] == id;
                if i < chat_only(rest).len() {
                    assert(chat_only(rest)[i] == id);
                    assert(chat_only(rest).contains(id));
                    let k = choose|k: int| 0 <= k < rest.len() && rest[k] == id;
                    assert(ids[k] == id);
                } else {
                    assert(ids[ids.len() - 1] == id);
                }
            }
            if ids.contains(id) && for_chat(id) {
                let k = choose|k: int| 0 <= k < ids.len() && ids[k] == id;
                if k < rest.len() {
                    assert(rest[k] == id);
                    assert(chat_only(rest).contains(id));
                    let i = choose|i: int|
                        0 <= i < chat_only(rest).len() && chat_only(rest)[i] == id;
                    assert(c[i] == id);
                } else {
                    assert(c[c.len() - 1] == id);
                }
            }
        }
    }
}

// ---------------------------------------------------------------------------
// Laws
// ---------------------------------------------------------------------------

/// The models for chatting are those of the list, in its order.
pub proof fn law_chat_models_keep_their_order(ids: Seq<Seq<char>>)
    ensures
        chat_only(ids) == ids.filter(|id: Seq<char>| for_chat(id)),
    decreases ids.len(),
{
    reveal(Seq::filter);
    if ids.len() > 0 {
        law_chat_models_keep_their_order(ids.drop_last());
    } else {
        assert(ids =~= Seq::<Seq<char>>::empty());
    }
}

/// A model whose id says, in whatever letters, that it embeds, hears, speaks, ranks, draws
/// or guards is not for chatting; any other is.
pub proof fn law_other_models_are_left_out(id: Seq<char>)
    ensures
        for_chat(id) == {
            let s = text::lower(id);
            let says = |hint: Seq<char>| text::has(s, hint);
            !(says("embedding"@) || says("embed-"@) || says("whisper"@) || says("tts"@) || says(
                "speech"@,
            ) || says("voice"@) || says("rerank"@) || says("stable-diffusion"@) || says("sdxl"@)
                || says("sd3"@) || says("flux"@) || says("image-gen"@) || says("moderation"@)
                || says("guardrail"@) || says("guard-"@))
        },
{
    let h = other_hints();
    assert(h.len() == 15);
    assert(h[0] == "embedding"@ && h[1] == "embed-"@ && h[2] == "whisper"@ && h[3] == "tts"@
        && h[4] == "speech"@ && h[5] == "voice"@ && h[6] == "rerank"@ && h[7]
        == "stable-diffusion"@ && h[8] == "sdxl"@ && h[9] == "sd3"@ && h[10] == "flux"@ && h[11]
        == "image-gen"@ && h[12] == "moderation"@ && h[13] == "guardrail"@ && h[14] == "guard-"@);
}

/// Each model is shown in its place, under the name that is known for it, if one is.
pub proof fn law_models_are_shown_with_names(
    ids: Seq<Seq<char>>,
    names: Seq<(Seq<char>, Seq<char>)>,
    i: int,
    name: Seq<char>,
)
    requires
        0 <= i < ids.len(),
    ensures
        named(ids, names).len() == ids.len(),
        named(ids, names)[i].id == ids[i],
        keyed::lookup(names, ids[i]) == Some(name) ==> named(ids, names)[i].name == Some(name),
        keyed::lookup(names, ids[i]) is None ==> named(ids, names)[i].name is None,
{
}

/// The ids in a reply are those of all its items, in their order; where an item has none,
/// the reply is refused as a whole.
pub proof fn law_ids_are_read(items: Seq<JsonView>, ids: Seq<Seq<char>>, k: int)
    ensures
        items.len() == ids.len() && (forall|i: int|
            0 <= i < items.len() ==> json::member_text(#[trigger] items[i], "id"@) == Some(ids[i]))
            ==> ids_of(items) == Some(ids),
        0 <= k < items.len() && json::member_text(items[k], "id"@) is None ==> ids_of(
            items,
        ) is None,
    decreases items.len(),
{
    if items.len() > 0 {
        let front = items.drop_last();
        assert(items.last() == items[items.len() - 1]);
        assert(forall|i: int| 0 <= i < front.len() ==> #[trigger] front[i] == items[i]);
        if items.len() == ids.len() {
            law_ids_are_read(front, ids.drop_last(), k);
            assert(ids.drop_last().push(ids.last()) =~= ids);
        } else {
            law_ids_are_read(front, ids, k);
        }
    } else if ids.len() == 0 {
        assert(ids =~= Seq::<Seq<char>>::empty());
    }
}

/// A reply is read from the list under `data`; one without it, or that is no JSON, is an
/// error.
pub proof fn law_reply_is_read(root: JsonView, items: Seq<JsonView>, ids: Seq<Seq<char>>)
    ensures
        json::member(root, "data"@) == Some(JsonView::Array(items)) && ids_of(items) == Some(ids)
            ==> ids_read(Some(root)) == Ok::<Seq<Seq<char>>, Seq<char>>(ids),
        json::member(root, "data"@) == Some(JsonView::Array(items)) && ids_of(items) is None
            ==> ids_read(Some(root)) is Err,
        json::member(root, "data"@) is None ==> ids_read(Some(root)) is Err,
        ids_read(None) is Err,
{
}

} // verus!
