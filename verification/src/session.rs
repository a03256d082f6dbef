//! Conversations, by the id of the response that ended their last turn.

use crate::ids::{is_id, new_id};
use crate::types::{copy_messages, messages_view, ChatMessage, MessageView};
use dashmap::DashMap;
use vstd::prelude::*;

verus! {

/// `dashmap::DashMap`: a concurrent hash map.
#[verifier::external_type_specification]
#[verifier::external_body]
#[verifier::reject_recursive_types(K)]
#[verifier::reject_recursive_types(V)]
#[verifier::reject_recursive_types(S)]
pub struct ExDashMap<K, V, S>(DashMap<K, V, S>);

/// What the map holds: the messages of each conversation, by response id.
pub uninterp spec fn histories(m: DashMap<String, Vec<ChatMessage>>) -> Map<
    Seq<char>,
    Seq<MessageView>,
>;

/// No conversations.
pub open spec fn no_histories() -> Map<Seq<char>, Seq<MessageView>> {
    Map::empty()
}

/// The conversation that `response_id` ended, or an empty one.
pub open spec fn history_in(
    stored: Map<Seq<char>, Seq<MessageView>>,
    response_id: Seq<char>,
) -> Seq<MessageView> {
    if stored.contains_key(response_id) {
        stored[response_id]
    } else {
        Seq::empty()
    }
}

/// `DashMap::new`: a map without entries.
#[verifier::external_body]
fn new_map() -> (m: DashMap<String, Vec<ChatMessage>>)
    ensures
        histories(m) == no_histories(),
{
    DashMap::new()
}

/// `DashMap::get`: the value stored under the key, here copied, if there is one.
/// The map does not change while it is borrowed here, for it is written only
/// through an exclusive borrow.
#[verifier::external_body]
fn read_entry(m: &DashMap<String, Vec<ChatMessage>>, key: &str) -> (r: Option<Vec<ChatMessage>>)
    ensures
        r is Some == histories(*m).contains_key(key@),
        r matches Some(messages) ==> messages_view(messages@) == histories(*m)[key@],
{
    m.get(key).map(|entry| copy_messages(entry.value()))
}

/// `DashMap::insert`: stores the value under the key, in place of any other.
#[verifier::external_body]
fn write_entry(
    m: &mut DashMap<String, Vec<ChatMessage>>,
    key: String,
    messages: Vec<ChatMessage>,
)
    ensures
        histories(*final(m)) == histories(*old(m)).insert(key@, messages_view(messages@)),
{
    m.insert(key, messages);
}

/// Maps a response id to the message history that its conversation has
/// accumulated. `previous_response_id` continues a conversation; the store keeps
/// the full list of messages, so that each Chat Completions call is
/// self-contained.
pub struct SessionStore {
    inner: DashMap<String, Vec<ChatMessage>>,
}

impl View for SessionStore {
    type V = Map<Seq<char>, Seq<MessageView>>;

    closed spec fn view(&self) -> Map<Seq<char>, Seq<MessageView>> {
        histories(self.inner)
    }
}

impl SessionStore {
    /// A store without conversations.
    pub fn new() -> (r: Self)
        ensures
            r@ == no_histories(),
    {
        SessionStore { inner: new_map() }
    }

    /// The history for a prior response id, or an empty one if it is not found.
    pub fn get_history(&self, response_id: &str) -> (r: Vec<ChatMessage>)
        ensures
            messages_view(r@) == history_in(self@, response_id@),
    {
        match read_entry(&self.inner, response_id) {
            Some(messages) => messages,
            None => {
                let r: Vec<ChatMessage> = Vec::new();
                assert(messages_view(r@) =~= Seq::empty());
                r
            },
        }
    }

    /// A fresh response id, with nothing stored yet. For the streaming path, with
    /// [`SessionStore::save_with_id`].
    pub fn new_id(&self) -> (r: String)
        ensures
            is_id(r@, "resp_"@),
    {
        new_id("resp_")
    }

    /// Stores a conversation under a response id allocated before (streaming
    /// path).
    pub fn save_with_id(&mut self, id: String, messages: Vec<ChatMessage>)
        ensures
            final(self)@ == old(self)@.insert(id@, messages_view(messages@)),
    {
        write_entry(&mut self.inner, id, messages);
    }

    /// Allocates an id and stores a conversation under it (non-streaming path).
    pub fn save(&mut self, messages: Vec<ChatMessage>) -> (r: String)
        ensures
            is_id(r@, "resp_"@),
            final(self)@ == old(self)@.insert(r@, messages_view(messages@)),
    {
        let id: String = self.new_id();
        self.save_with_id(id.clone(), messages);
        id
    }
}

/// What is stored under a response id is read back, until something else is stored
/// under it; the other conversations stay as they are.
pub proof fn law_saved_history_is_read_back(
    stored: Map<Seq<char>, Seq<MessageView>>,
    id: Seq<char>,
    messages: Seq<MessageView>,
    other: Seq<char>,
)
    ensures
        history_in(stored.insert(id, messages), id) == messages,
        other != id ==> history_in(stored.insert(id, messages), other) == history_in(stored, other),
{
}

} // verus!
