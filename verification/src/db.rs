//! The rows of the database: conversations and their messages.
//!
//! What is stored in a row is decided here; storing it is the caller's work.
use vstd::prelude::*;
use vstd::string::*;

use crate::clock;
use crate::ids;
use crate::naming;
use crate::text;

verus! {

/// A conversation.
pub struct Conversation {
    pub id: String,
    pub title: String,
    pub model: Option<String>,
    pub system_prompt: Option<String>,
    pub compaction_summary: Option<String>,
    pub created_at: i64,
    pub updated_at: i64,
}

/// A message of a conversation.
pub struct MessageRow {
    pub id: String,
    pub conversation_id: String,
    pub role: String,
    pub index: i64,
    pub content: String,
    pub model: Option<String>,
    pub provider: Option<String>,
    pub thinking_level: Option<String>,
    pub thinking: Option<String>,
    pub usage: Option<String>,
    pub stop_reason: Option<String>,
    pub attachments: Option<String>,
    pub created_at: i64,
}

/// What a conversation holds.
#[verifier::ext_equal]
pub struct ConversationView {
    pub id: Seq<char>,
    pub title: Seq<char>,
    pub model: Option<Seq<char>>,
    pub system_prompt: Option<Seq<char>>,
    pub compaction_summary: Option<Seq<char>>,
    pub created_at: i64,
    pub updated_at: i64,
}

impl View for Conversation {
    type V = ConversationView;

    open spec fn view(&self) -> ConversationView {
        ConversationView {
            id: self.id@,
            title: self.title@,
            model: text::opt_text(self.model),
            system_prompt: text::opt_text(self.system_prompt),
            compaction_summary: text::opt_text(self.compaction_summary),
            created_at: self.created_at,
            updated_at: self.updated_at,
        }
    }
}

/// What is to be stored as a message.
pub struct NewMessage {
    pub conversation_id: String,
    pub role: String,
    pub content: String,
    pub model: Option<String>,
    pub provider: Option<String>,
    pub thinking_level: Option<String>,
    pub thinking: Option<String>,
    pub usage: Option<String>,
    pub stop_reason: Option<String>,
    pub attachments: Option<String>,
}

/// What a new message holds.
#[verifier::ext_equal]
pub struct NewMessageView {
    pub conversation_id: Seq<char>,
    pub role: Seq<char>,
    pub content: Seq<char>,
    pub model: Option<Seq<char>>,
    pub provider: Option<Seq<char>>,
    pub thinking_level: Option<Seq<char>>,
    pub thinking: Option<Seq<char>>,
    pub usage: Option<Seq<char>>,
    pub stop_reason: Option<Seq<char>>,
    pub attachments: Option<Seq<char>>,
}

impl View for NewMessage {
    type V = NewMessageView;

    open spec fn view(&self) -> NewMessageView {
        NewMessageView {
            conversation_id: self.conversation_id@,
            role: self.role@,
            content: self.content@,
            model: text::opt_text(self.model),
            provider: text::opt_text(self.provider),
            thinking_level: text::opt_text(self.thinking_level),
            thinking: text::opt_text(self.thinking),
            usage: text::opt_text(self.usage),
            stop_reason: text::opt_text(self.stop_reason),
            attachments: text::opt_text(self.attachments),
        }
    }
}

/// What a row holds.
#[verifier::ext_equal]
pub struct RowView {
    pub id: Seq<char>,
    pub index: i64,
    pub created_at: i64,
    pub message: NewMessageView,
}

impl View for MessageRow {
    type V = RowView;

    open spec fn view(&self) -> RowView {
        RowView {
            id: self.id@,
            index: self.index,
            created_at: self.created_at,
            message: NewMessageView {
                conversation_id: self.conversation_id@,
                role: self.role@,
                content: self.content@,
                model: text::opt_text(self.model),
                provider: text::opt_text(self.provider),
                thinking_level: text::opt_text(self.thinking_level),
                thinking: text::opt_text(self.thinking),
                usage: text::opt_text(self.usage),
                stop_reason: text::opt_text(self.stop_reason),
                attachments: text::opt_text(self.attachments),
            },
        }
    }
}

/// What the rows hold.
pub open spec fn row_views(v: Seq<MessageRow>) -> Seq<RowView> {
    Seq::new(v.len(), |i: int| v[i]@)
}

// ---------------------------------------------------------------------------
// Titles
// ---------------------------------------------------------------------------

/// The title that a first message gives its conversation: its first line, cut.
pub open spec fn title_from(content: Seq<char>) -> Seq<char> {
    let line = naming::first_line(text::split(content, text::among(seq!['\n', '\r'])));
    if line.len() == 0 {
        "New chat"@
    } else if line.len() > 60 {
        line.take(60).push('…')
    } else {
        line
    }
}

/// The title that a first message gives its conversation.
pub fn derive_title(content: &str) -> (r: String)
    ensures
        r@ == title_from(content@),
{
    let breaks: Vec<char> = vec!['\n', '\r'];
    assert(breaks@ =~= seq!['\n', '\r']);
    let line = naming::find_first_line(&text::split_among(content, &breaks));
    if line.as_str().is_empty() {
        return "New chat".to_owned();
    }
    if text::char_count(line.as_str()) > 60 {
        let mut title = text::take_chars(line.as_str(), 60);
        title.push('…');
        title
    } else {
        line
    }
}

/// The title of a conversation after a message: the first message of the user names a
/// conversation that has no name yet.
pub open spec fn retitled(title: Seq<char>, role: Seq<char>, content: Seq<char>) -> Seq<char> {
    if role == "user"@ && (title == "New chat"@ || title.len() == 0) {
        title_from(content)
    } else {
        title
    }
}

/// The title of a conversation after a message.
pub fn updated_title(title: String, role: &str, content: &str) -> (r: String)
    ensures
        r@ == retitled(title@, role@, content@),
{
    if text::same(role, "user") && (text::same(title.as_str(), "New chat")
        || title.as_str().is_empty()) {
        derive_title(content)
    } else {
        title
    }
}

/// A conversation that has a name keeps it, whatever is said in it.
pub proof fn law_named_conversation_keeps_title(
    title: Seq<char>,
    role: Seq<char>,
    content: Seq<char>,
)
    requires
        title.len() > 0,
        title != "New chat"@,
    ensures
        retitled(title, role, content) == title,
{
}

/// The title of a message is never empty.
pub proof fn law_title_is_never_empty(content: Seq<char>)
    ensures
        title_from(content).len() > 0,
        title_from(content).len() <= 61,
{
    reveal_strlit("New chat");
}

/// The name to which a conversation is renamed.
pub fn renamed_title(title: &str) -> (r: String)
    ensures
        r@ == text::trimmed(title@),
{
    text::trim(title)
}

// ---------------------------------------------------------------------------
// Rows
// ---------------------------------------------------------------------------

/// The index of a conversation's next message, where the last one has `last`.
pub open spec fn index_after(last: Option<i64>) -> int {
    match last {
        Some(i) => i + 1,
        None => 0,
    }
}

/// The row of a new message, where the last one of its conversation has the index `last`.
pub open spec fn row_for(
    message: NewMessageView,
    id: Seq<char>,
    last: Option<i64>,
    now: i64,
) -> RowView {
    RowView { id, index: index_after(last) as i64, created_at: now, message }
}

/// A conversation after a message was stored in it: it was changed when the message was
/// made, and the first message of the user may name it.
pub open spec fn after_message(c: ConversationView, row: RowView) -> ConversationView {
    ConversationView {
        title: retitled(c.title, row.message.role, row.message.content),
        updated_at: row.created_at,
        ..c
    }
}

/// The row of a new message.
pub fn message_row(message: NewMessage, id: String, last: Option<i64>, now: i64) -> (r: MessageRow)
    requires
        index_after(last) <= i64::MAX,
    ensures
        r@ == row_for(message@, id@, last, now),
{
    let index: i64 = match last {
        Some(i) => i + 1,
        None => 0,
    };
    MessageRow {
        id,
        conversation_id: message.conversation_id,
        role: message.role,
        index,
        content: message.content,
        model: message.model,
        provider: message.provider,
        thinking_level: message.thinking_level,
        thinking: message.thinking,
        usage: message.usage,
        stop_reason: message.stop_reason,
        attachments: message.attachments,
        created_at: now,
    }
}

/// The row of a new message of a conversation, and the conversation after it.
pub fn store_message(
    conversation: Conversation,
    message: NewMessage,
    id: String,
    last: Option<i64>,
    now: i64,
) -> (r: (MessageRow, Conversation))
    requires
        index_after(last) <= i64::MAX,
    ensures
        r.0@ == row_for(message@, id@, last, now),
        r.1@ == after_message(conversation@, r.0@),
{
    let row = message_row(message, id, last, now);
    let title = updated_title(conversation.title, row.role.as_str(), row.content.as_str());
    let changed = Conversation {
        id: conversation.id,
        title,
        model: conversation.model,
        system_prompt: conversation.system_prompt,
        compaction_summary: conversation.compaction_summary,
        created_at: conversation.created_at,
        updated_at: now,
    };
    (row, changed)
}

/// The row of a message of a conversation that is stored now, and the conversation after
/// it.
pub fn insert_message_full(
    conversation: Conversation,
    message: NewMessage,
    last: Option<i64>,
) -> (r: (MessageRow, Conversation))
    requires
        index_after(last) <= i64::MAX,
    ensures
        ids::is_uuid(r.0@.id),
        clock::is_time(r.0@.created_at),
        r.0@ == row_for(message@, r.0@.id, last, r.0@.created_at),
        r.1@ == after_message(conversation@, r.0@),
{
    store_message(conversation, message, ids::fresh_id(), last, clock::now())
}

// ---------------------------------------------------------------------------
// What is stored
// ---------------------------------------------------------------------------

/// What the tables hold: the conversations, and the messages in the order in which they
/// were stored.
#[verifier::ext_equal]
pub struct TablesView {
    pub conversations: Seq<ConversationView>,
    pub messages: Seq<RowView>,
}

/// The messages of a conversation.
pub open spec fn messages_of(messages: Seq<RowView>, id: Seq<char>) -> Seq<RowView>
    decreases messages.len(),
{
    if messages.len() == 0 {
        Seq::empty()
    } else {
        let before = messages_of(messages.drop_last(), id);
        if messages.last().message.conversation_id == id {
            before.push(messages.last())
        } else {
            before
        }
    }
}

/// Whether messages are in the order of their indices, each with one of its own.
pub open spec fn indices_grow(messages: Seq<RowView>) -> bool {
    forall|i: int, j: int|
        0 <= i < j < messages.len() ==> (#[trigger] messages[i]).index < (
        #[trigger] messages[j]).index
}

/// The index of the last message of a conversation, if it has one.
pub open spec fn last_index(messages: Seq<RowView>, id: Seq<char>) -> Option<i64> {
    let own = messages_of(messages, id);
    if own.len() == 0 {
        None
    } else {
        Some(own.last().index)
    }
}

/// The tables after a message was stored in its conversation: its row comes with the index
/// after that of the conversation's last message, and the conversation is brought up to
/// date.
pub open spec fn stored(t: TablesView, message: NewMessageView, id: Seq<char>, now: i64) -> TablesView {
    let row = row_for(message, id, last_index(t.messages, message.conversation_id), now);
    TablesView {
        conversations: Seq::new(
            t.conversations.len(),
            |i: int|
                if t.conversations[i].id == message.conversation_id {
                    after_message(t.conversations[i], row)
                } else {
                    t.conversations[i]
                },
        ),
        messages: t.messages.push(row),
    }
}

/// Storing a message adds its row at the end of its conversation, with an index greater
/// than all that were there, and dates the conversation by it. Other conversations and
/// their messages are as they were.
pub proof fn law_messages_are_appended(
    t: TablesView,
    message: NewMessageView,
    id: Seq<char>,
    now: i64,
    other: Seq<char>,
)
    requires
        indices_grow(messages_of(t.messages, message.conversation_id)),
        index_after(last_index(t.messages, message.conversation_id)) <= i64::MAX,
    ensures
        ({
            let c = message.conversation_id;
            let n = stored(t, message, id, now);
            let row = row_for(message, id, last_index(t.messages, c), now);
            &&& messages_of(n.messages, c) == messages_of(t.messages, c).push(row)
            &&& indices_grow(messages_of(n.messages, c))
            &&& other != c ==> messages_of(n.messages, other) == messages_of(t.messages, other)
            &&& n.conversations.len() == t.conversations.len()
            &&& forall|i: int|
                0 <= i < t.conversations.len() ==> (#[trigger] n.conversations[i]) == (
                if t.conversations[i].id == c {
                    after_message(t.conversations[i], row)
                } else {
                    t.conversations[i]
                })
            &&& forall|i: int|
                0 <= i < t.conversations.len() && t.conversations[i].id == c ==> (
                #[trigger] n.conversations[i]).updated_at == row.created_at
        }),
{
    let c = message.conversation_id;
    let n = stored(t, message, id, now);
    let row = row_for(message, id, last_index(t.messages, c), now);
    let own = messages_of(t.messages, c);
    assert(n.messages.drop_last() =~= t.messages);
    assert(n.messages.last() == row);
    let after = messages_of(n.messages, c);
    assert(after == own.push(row));
    assert forall|i: int, j: int| 0 <= i < j < after.len() implies (#[trigger] after[i]).index < (
    #[trigger] after[j]).index by {
        if j == own.len() {
            if i < own.len() - 1 {
                assert(own[i].index < own[own.len() - 1].index);
            }
        } else {
            assert(own[i].index < own[j].index);
        }
    }
}

/// A new conversation.
pub fn conversation_row(title: Option<String>, id: String, now: i64) -> (r: Conversation)
    ensures
        r@ == (ConversationView {
            id: id@,
            title: match text::opt_text(title) {
                Some(t) => t,
                None => "New chat"@,
            },
            model: None,
            system_prompt: None,
            compaction_summary: None,
            created_at: now,
            updated_at: now,
        }),
{
    Conversation {
        id,
        title: match title {
            Some(t) => t,
            None => "New chat".to_owned(),
        },
        model: None,
        system_prompt: None,
        compaction_summary: None,
        created_at: now,
        updated_at: now,
    }
}

/// A conversation that begins now.
pub fn create_conversation(title: Option<String>) -> (r: Conversation)
    ensures
        ids::is_uuid(r@.id),
        clock::is_time(r@.created_at),
        r@ == (ConversationView {
            id: r@.id,
            title: match text::opt_text(title) {
                Some(t) => t,
                None => "New chat"@,
            },
            model: None,
            system_prompt: None,
            compaction_summary: None,
            created_at: r@.created_at,
            updated_at: r@.created_at,
        }),
{
    conversation_row(title, ids::fresh_id(), clock::now())
}

// ---------------------------------------------------------------------------
// Searching
// ---------------------------------------------------------------------------

/// The text that `str::to_lowercase` makes.
pub uninterp spec fn lowercase(s: Seq<char>) -> Seq<char>;

/// `str::to_lowercase`: the text in small letters, as Unicode has them. Which they are
/// is left to the name.
pub assume_specification[ str::to_lowercase ](s: &str) -> (r: String)
    ensures
        r@ == lowercase(s@),
;

/// Whether a text holds what is looked for, whatever the case of its letters. The white
/// space around the query does not count.
pub open spec fn is_mentioned(query: Seq<char>, s: Seq<char>) -> bool {
    text::has(lowercase(s), lowercase(text::trimmed(query)))
}

/// Whether a text holds what is looked for.
pub fn mentions(query: &str, text: &str) -> (r: bool)
    ensures
        r == text::has(lowercase(text@), lowercase(text::trimmed(query@))),
        r == is_mentioned(query@, text@),
{
    let wanted = text::trim(query).as_str().to_lowercase();
    text::contains(text.to_lowercase().as_str(), wanted.as_str())
}

/// A conversation with what is said in it.
pub struct Talk {
    pub conversation: Conversation,
    pub contents: Vec<String>,
}

/// Whether a conversation is found: what is looked for stands in its title, or is said in
/// it. A blank query finds every conversation.
pub open spec fn is_found(query: Seq<char>, title: Seq<char>, contents: Seq<Seq<char>>) -> bool {
    ||| text::blank(query)
    ||| is_mentioned(query, title)
    ||| exists|i: int| 0 <= i < contents.len() && is_mentioned(query, #[trigger] contents[i])
}

/// The conversations that are found, in the order in which they come.
pub open spec fn all_found(query: Seq<char>, talks: Seq<Talk>) -> Seq<ConversationView>
    decreases talks.len(),
{
    if talks.len() == 0 {
        Seq::empty()
    } else {
        let before = all_found(query, talks.drop_last());
        let t = talks.last();
        if is_found(query, t.conversation.title@, text::texts(t.contents@)) {
            before.push(t.conversation@)
        } else {
            before
        }
    }
}

/// Whether a conversation is found.
pub fn found(query: &str, title: &str, contents: &Vec<String>) -> (r: bool)
    ensures
        r == is_found(query@, title@, text::texts(contents@)),
{
    if text::is_blank(query) || mentions(query, title) {
        return true;
    }
    let ghost said = text::texts(contents@);
    let mut i: usize = 0;
    while i < contents.len()
        invariant
            i <= contents@.len(),
            said == text::texts(contents@),
            forall|k: int| 0 <= k < i ==> !is_mentioned(query@, #[trigger] said[k]),
        decreases contents@.len() - i,
    {
        assert(said[i as int] == contents@[i as int]@);
        if mentions(query, contents[i].as_str()) {
            return true;
        }
        i += 1;
    }
    false
}

/// What the conversations hold.
pub open spec fn conversation_views(v: Seq<Conversation>) -> Seq<ConversationView> {
    Seq::new(v.len(), |i: int| v[i]@)
}

/// The conversations that are found among those that there are, in the order in which they
/// come.
pub fn search_conversations(query: &str, talks: Vec<Talk>) -> (r: Vec<Conversation>)
    ensures
        conversation_views(r@) == all_found(query@, talks@),
{
    let ghost all = talks@;
    let mut left = talks;
    let mut out: Vec<Conversation> = Vec::new();
    let mut reversed: Vec<Conversation> = Vec::new();
    assert(all.take(all.len() as int) =~= all);
    assert(conversation_views(reversed@) =~= Seq::<ConversationView>::empty());
    while left.len() > 0
        invariant
            left@.len() <= all.len(),
            left@ == all.take(left@.len() as int),
            all_found(query@, all) == all_found(query@, left@) + conversation_views(
                reversed@,
            ).reverse(),
        decreases left@.len(),
    {
        let ghost before = left@;
        let ghost kept = conversation_views(reversed@);
        if let Some(t) = left.pop() {
            assert(left@ =~= before.drop_last());
            assert(left@ =~= all.take(left@.len() as int));
            assert(t == before.last());
            if found(query, t.conversation.title.as_str(), &t.contents) {
                let ghost c = t.conversation@;
                reversed.push(t.conversation);
                assert(conversation_views(reversed@) =~= kept.push(c));
                assert(all_found(query@, all) =~= all_found(query@, left@)
                    + conversation_views(reversed@).reverse());
            }
        }
    }
    assert(left@ =~= Seq::<Talk>::empty());
    let ghost kept = conversation_views(reversed@);
    assert(all_found(query@, all) =~= kept.reverse());
    assert(conversation_views(out@) =~= Seq::<ConversationView>::empty());
    while reversed.len() > 0
        invariant
            kept == conversation_views(reversed@) + conversation_views(out@).reverse(),
        decreases reversed@.len(),
    {
        let ghost before = conversation_views(reversed@);
        let ghost done = conversation_views(out@);
        if let Some(c) = reversed.pop() {
            assert(conversation_views(reversed@) =~= before.drop_last());
            assert(c@ == before.last());
            out.push(c);
            assert(conversation_views(out@) =~= done.push(before.last()));
            assert(kept =~= conversation_views(reversed@) + conversation_views(out@).reverse());
        }
    }
    assert(conversation_views(reversed@) =~= Seq::<ConversationView>::empty());
    assert(conversation_views(out@) =~= kept.reverse());
    out
}

/// Whether a conversation comes before another.
pub open spec fn comes_before(
    talks: Seq<Talk>,
    first: ConversationView,
    second: ConversationView,
) -> bool {
    exists|k: int, l: int|
        0 <= k < l < talks.len() && (#[trigger] talks[k]).conversation@ == first && (
        #[trigger] talks[l]).conversation@ == second
}

/// Whether those that were changed last come first.
pub open spec fn newest_first(conversations: Seq<ConversationView>) -> bool {
    forall|a: int, b: int|
        0 <= a < b < conversations.len() ==> (#[trigger] conversations[a]).updated_at >= (
        #[trigger] conversations[b]).updated_at
}

/// The conversations, without what is said in them.
pub open spec fn headings(talks: Seq<Talk>) -> Seq<ConversationView> {
    Seq::new(talks.len(), |i: int| talks[i].conversation@)
}

/// A search finds exactly the conversations that mention what is looked for, each once, and
/// keeps them in their order. Where the newest come first, they do so in what is found.
pub proof fn law_search_keeps_what_is_found(query: Seq<char>, talks: Seq<Talk>)
    ensures
        forall|i: int|
            0 <= i < talks.len() && is_found(
                query,
                (#[trigger] talks[i]).conversation.title@,
                text::texts(talks[i].contents@),
            ) ==> all_found(query, talks).contains(talks[i].conversation@),
        forall|c: ConversationView| #[trigger]
            all_found(query, talks).contains(c) ==> exists|k: int|
                0 <= k < talks.len() && (#[trigger] talks[k]).conversation@ == c && is_found(
                    query,
                    talks[k].conversation.title@,
                    text::texts(talks[k].contents@),
                ),
        forall|a: int, b: int|
            0 <= a < b < all_found(query, talks).len() ==> #[trigger] comes_before(
                talks,
                all_found(query, talks)[a],
                all_found(query, talks)[b],
            ),
        newest_first(headings(talks)) ==> newest_first(all_found(query, talks)),
{
    lemma_found_places(query, talks);
    let f = all_found(query, talks);
    let p = places(query, talks);
    assert forall|i: int|
        0 <= i < talks.len() && is_found(
            query,
            (#[trigger] talks[i]).conversation.title@,
            text::texts(talks[i].contents@),
        ) implies f.contains(talks[i].conversation@) by {
        assert(p.contains(i));
        let a = choose|a: int| 0 <= a < p.len() && p[a] == i;
        assert(f[a] == talks[i].conversation@);
    }
    assert forall|c: ConversationView| #[trigger] f.contains(c) implies exists|k: int|
        0 <= k < talks.len() && (#[trigger] talks[k]).conversation@ == c && is_found(
            query,
            talks[k].conversation.title@,
            text::texts(talks[k].contents@),
        ) by {
        let a = choose|a: int| 0 <= a < f.len() && f[a] == c;
        assert(talks[p[a]].conversation@ == c);
    }
    assert forall|a: int, b: int| 0 <= a < b < f.len() implies #[trigger] comes_before(
        talks,
        f[a],
        f[b],
    ) by {
        assert(p[a] < p[b]);
        assert(talks[p[a]].conversation@ == f[a] && talks[p[b]].conversation@ == f[b]);
    }
    if newest_first(headings(talks)) {
        let h = headings(talks);
        assert forall|a: int, b: int| 0 <= a < b < f.len() implies (#[trigger] f[a]).updated_at >= (
        #[trigger] f[b]).updated_at by {
            assert(p[a] < p[b]);
            assert(h[p[a]] == f[a] && h[p[b]] == f[b]);
        }
    }
}

/// The places of the conversations that are found.
spec fn places(query: Seq<char>, talks: Seq<Talk>) -> Seq<int>
    decreases talks.len(),
{
    if talks.len() == 0 {
        Seq::empty()
    } else {
        let before = places(query, talks.drop_last());
        let t = talks.last();
        if is_found(query, t.conversation.title@, text::texts(t.contents@)) {
            before.push(talks.len() - 1)
        } else {
            before
        }
    }
}

/// What stands at the places.
proof fn lemma_found_places(query: Seq<char>, talks: Seq<Talk>)
    ensures
        ({
            let f = all_found(query, talks);
            let p = places(query, talks);
            &&& f.len() == p.len()
            &&& forall|a: int|
                0 <= a < p.len() ==> 0 <= #[trigger] p[a] < talks.len() && f[a]
                    == talks[p[a]].conversation@ && is_found(
                    query,
                    talks[p[a]].conversation.title@,
                    text::texts(talks[p[a]].contents@),
                )
            &&& forall|a: int, b: int| 0 <= a < b < p.len() ==> #[trigger] p[a] < #[trigger] p[b]
            &&& forall|i: int|
                0 <= i < talks.len() && is_found(
                    query,
                    (#[trigger] talks[i]).conversation.title@,
                    text::texts(talks[i].contents@),
                ) ==> p.contains(i)
        }),
    decreases talks.len(),
{
    if talks.len() > 0 {
        let before = talks.drop_last();
        let q = places(query, before);
        let p = places(query, talks);
        let f = all_found(query, talks);
        lemma_found_places(query, before);
        assert forall|a: int| 0 <= a < p.len() implies 0 <= #[trigger] p[a] < talks.len() && f[a]
            == talks[p[a]].conversation@ && is_found(
            query,
            talks[p[a]].conversation.title@,
            text::texts(talks[p[a]].contents@),
        ) by {
            if a < q.len() {
                assert(p[a] == q[a]);
                assert(before[q[a]] == talks[q[a]]);
            }
        }
        assert forall|i: int|
            0 <= i < talks.len() && is_found(
                query,
                (#[trigger] talks[i]).conversation.title@,
                text::texts(talks[i].contents@),
            ) implies p.contains(i) by {
            if i < before.len() {
                assert(before[i] == talks[i]);
                assert(q.contains(i));
                let a = choose|a: int| 0 <= a < q.len() && q[a] == i;
                assert(p[a] == i);
            } else {
                assert(p[p.len() - 1] == i);
            }
        }
    }
}

// ---------------------------------------------------------------------------
// Laws of titles, rows and searches
// ---------------------------------------------------------------------------

/// A conversation is called after the first line that is not blank of what was said: blank
/// lines before it and whatever comes after it make no difference.
pub proof fn law_title_is_the_first_line(line: Seq<char>, end: char, rest: Seq<char>)
    requires
        end == '\n' || end == '\r',
        forall|i: int|
            0 <= i < line.len() ==> (#[trigger] line[i]) != '\n' && line[i] != '\r',
    ensures
        text::blank(line) ==> title_from(line.push(end) + rest) == title_from(rest),
        !text::blank(line) ==> title_from(line.push(end) + rest) == title_from(line),
        ({
            let t = text::trimmed(line);
            &&& t.len() == 0 ==> title_from(line) == "New chat"@
            &&& 0 < t.len() <= 60 ==> title_from(line) == t
            &&& t.len() > 60 ==> title_from(line) == t.take(60).push('…')
        }),
{
    let set: Seq<char> = seq!['\n', '\r'];
    let p = text::among(set);
    assert(set[0] == '\n' && set[1] == '\r');
    assert(p(end)) by {
        assert(set.contains(end));
    }
    assert forall|i: int| 0 <= i < line.len() implies !p(#[trigger] line[i]) by {
        if p(line[i]) {
            let k = choose|k: int| 0 <= k < set.len() && set[k] == line[i];
            assert(k == 0 || k == 1);
        }
    }
    text::lemma_split_whole(line, p);
    text::lemma_split_concat(line, end, rest, p);
    let pieces = text::split(line, p) + text::split(rest, p);
    assert(pieces[0] == line);
    assert(pieces.drop_first() =~= text::split(rest, p));
    assert(text::split(line, p)[0] == line);
    assert(text::split(line, p).drop_first() =~= Seq::<Seq<char>>::empty());
    assert(naming::first_line(Seq::<Seq<char>>::empty()) =~= Seq::<char>::empty());
}

/// What the user says first names a conversation that has no name; nothing else does.
pub proof fn law_first_words_name_the_conversation(
    title: Seq<char>,
    role: Seq<char>,
    content: Seq<char>,
)
    ensures
        role == "user"@ && (title.len() == 0 || title == "New chat"@) ==> retitled(
            title,
            role,
            content,
        ) == title_from(content),
        role != "user"@ ==> retitled(title, role, content) == title,
{
}

/// A message is stored as it is, behind the last one of its conversation, which is then of
/// the time of the message and else, but for its title, as it was.
pub proof fn law_message_is_stored(
    c: ConversationView,
    message: NewMessageView,
    id: Seq<char>,
    last: i64,
    now: i64,
)
    requires
        last < i64::MAX,
    ensures
        ({
            let first = row_for(message, id, None, now);
            let next = row_for(message, id, Some(last), now);
            let after = after_message(c, next);
            &&& first.index == 0 && next.index == last + 1
            &&& first.message == message && next.message == message
            &&& first.id == id && next.id == id
            &&& first.created_at == now && next.created_at == now
            &&& after.updated_at == now && after.created_at == c.created_at
            &&& after.id == c.id && after.model == c.model
            &&& after.system_prompt == c.system_prompt
            &&& after.compaction_summary == c.compaction_summary
            &&& after.title == retitled(c.title, message.role, message.content)
        }),
{
}

/// The messages of a conversation are all those that belong to it, in their order.
pub proof fn law_messages_are_found(messages: Seq<RowView>, id: Seq<char>)
    ensures
        messages_of(messages, id) == messages.filter(
            |m: RowView| m.message.conversation_id == id,
        ),
    decreases messages.len(),
{
    reveal(Seq::filter);
    if messages.len() > 0 {
        law_messages_are_found(messages.drop_last(), id);
    } else {
        assert(messages =~= Seq::<RowView>::empty());
    }
}

/// A blank query finds every conversation; any other finds those whose title or one of
/// whose messages says it, in whatever letters, and no others.
pub proof fn law_query_finds_what_says_it(
    query: Seq<char>,
    title: Seq<char>,
    contents: Seq<Seq<char>>,
    i: int,
)
    ensures
        ({
            let wanted = lowercase(text::trimmed(query));
            let says = |s: Seq<char>| text::has(lowercase(s), wanted);
            &&& text::blank(query) ==> is_found(query, title, contents)
            &&& says(title) ==> is_found(query, title, contents)
            &&& 0 <= i < contents.len() && says(contents[i]) ==> is_found(query, title, contents)
            &&& !text::blank(query) && !says(title) && (forall|k: int|
                0 <= k < contents.len() ==> !says(#[trigger] contents[k])) ==> !is_found(
                query,
                title,
                contents,
            )
        }),
{
    if 0 <= i < contents.len() && text::has(
        lowercase(contents[i]),
        lowercase(text::trimmed(query)),
    ) {
        assert(is_mentioned(query, contents[i]));
    }
}

} // verus!
