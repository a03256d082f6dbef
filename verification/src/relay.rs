//! What the relay decides about a request and about what upstream answers.

use crate::ids::is_id;
use crate::json::{
    bool_value, drop_member, empty_object, json_bool, json_object, json_string, json_texts,
    members_of, merge_members, no_members, object_value, set_member,
};
use crate::output::{calls_in, output_items};
use crate::quirks::{is_glm_like_model, is_glm_name, Quirks};
use crate::session::{history_in, SessionStore};
use crate::stream::state::begun;
use crate::stream::StreamTranslation;
use crate::text::{char_count, chars_of, occurs_at, stands_at, texts};
use crate::tools::{chat_tools, set_text};
use crate::translate::{
    answer, input_messages, is_response, repair, repaired, repairs_of, request_messages,
    response_for, to_chat_request, usage_of, Repairs,
};
use crate::types::{
    calls_view, copy_messages, messages_view, plain, ChatMessage, ChatRequest, ChatResponse,
    InputItem, MessageView, ResponsesInput, ResponsesRequest, ResponsesResponse, Tool, ToolCall,
    ToolCallView,
};
use serde_json::Value;
use vstd::prelude::*;
use vstd::string::*;

verus! {

// ---------------------------------------------------------------------------
// Requests
// ---------------------------------------------------------------------------

/// Whether `name` is that of the tool that spawns a child agent, in a namespace or
/// not.
pub open spec fn is_spawn(name: Seq<char>) -> bool {
    name == "spawn_agent"@ || occurs_at(name, name.len() - 12, "-spawn_agent"@)
}

/// Whether a tool call spawns a child agent.
pub open spec fn spawns(call: ToolCallView) -> bool {
    call matches ToolCallView::Function { name, .. } && is_spawn(name)
}

/// Whether a history ends with a message that spawns a child agent.
pub open spec fn ends_in_spawn(history: Seq<MessageView>) -> bool {
    history.len() > 0 && exists|i: int|
        0 <= i < calls_in(history.last()).len() && spawns(#[trigger] calls_in(history.last())[i])
}

/// Whether an input says what a call gave.
pub open spec fn answers_call(input: ResponsesInput) -> bool {
    input matches ResponsesInput::Messages(items) && exists|i: int|
        0 <= i < items@.len() && (#[trigger] items@[i]) is ToolOutput
}

/// The history that a request continues: that of the response it names, or an empty
/// one. A request that names the turn in which a child agent was spawned, but does
/// not say what the call gave, comes from the child: it is isolated from the history
/// of its parent.
pub open spec fn continued(
    stored: Map<Seq<char>, Seq<MessageView>>,
    req: ResponsesRequest,
) -> Seq<MessageView> {
    match req.previous_response_id {
        Some(id) => if ends_in_spawn(history_in(stored, id@)) && !answers_call(req.input) {
            Seq::empty()
        } else {
            history_in(stored, id@)
        },
        None => Seq::empty(),
    }
}

/// Whether `name` ends in `end`.
fn ends_with(name: &str, end: &str) -> (r: bool)
    requires
        end@.len() <= usize::MAX,
    ensures
        r == occurs_at(name@, name@.len() - end@.len(), end@),
{
    let chars: Vec<char> = chars_of(name);
    let width: usize = char_count(end);
    if chars.len() < width {
        return false;
    }
    let at: usize = chars.len() - width;
    stands_at(chars.as_slice(), at, end)
}

/// Whether `name` is that of the tool that spawns a child agent.
fn names_spawn(name: &str) -> (r: bool)
    ensures
        r == is_spawn(name@),
{
    proof {
        reveal_strlit("-spawn_agent");
    }
    name.to_owned() == "spawn_agent".to_owned() || ends_with(name, "-spawn_agent")
}

/// Whether a history ends with a message that spawns a child agent.
fn spawned_last(history: &Vec<ChatMessage>) -> (r: bool)
    ensures
        r == ends_in_spawn(messages_view(history@)),
{
    let n: usize = history.len();
    if n == 0 {
        return false;
    }
    let ghost last = messages_view(history@).last();
    match &history[n - 1].tool_calls {
        Some(calls) => {
            assert(calls_in(last) == calls_view(calls@));
            let mut i: usize = 0;
            while i < calls.len()
                invariant
                    i <= calls@.len(),
                    history@.len() > 0,
                    last == messages_view(history@).last(),
                    calls_in(last) == calls_view(calls@),
                    forall|k: int| 0 <= k < i ==> !spawns(#[trigger] calls_in(last)[k]),
                ensures
                    i == calls@.len(),
                decreases calls@.len() - i,
            {
                match &calls[i] {
                    ToolCall::Function { name, .. } => {
                        if names_spawn(name.as_str()) {
                            assert(spawns(calls_in(last)[i as int]));
                            return true;
                        }
                    },
                    ToolCall::Other(_) => {},
                }
                i = i + 1;
            }
            false
        },
        None => {
            assert(calls_in(last).len() == 0);
            false
        },
    }
}

/// Whether an input says what a call gave.
fn has_output(input: &ResponsesInput) -> (r: bool)
    ensures
        r == answers_call(*input),
{
    match input {
        ResponsesInput::Text(_) => false,
        ResponsesInput::Messages(items) => {
            let mut i: usize = 0;
            while i < items.len()
                invariant
                    i <= items@.len(),
                    *input == ResponsesInput::Messages(*items),
                    forall|k: int| 0 <= k < i ==> !((#[trigger] items@[k]) is ToolOutput),
                decreases items@.len() - i,
            {
                if let InputItem::ToolOutput { .. } = &items[i] {
                    assert(items@[i as int] is ToolOutput);
                    return true;
                }
                i = i + 1;
            }
            false
        },
    }
}

/// What is sent upstream: the request, and where to.
#[derive(Debug, PartialEq)]
pub struct Outgoing {
    pub request: ChatRequest,
    pub url: String,
}

/// The Chat Completions request for `req`, with the history that it continues, and
/// the address of the endpoint of `upstream` that takes it. A GLM model is told to
/// think, if that quirk is enabled.
pub fn outgoing(
    sessions: &SessionStore,
    req: &ResponsesRequest,
    upstream: &str,
    quirks: Quirks,
) -> (r: Outgoing)
    ensures
        r.url@ == upstream@ + "/chat/completions"@,
        r.request.model@ == req.model@,
        messages_view(r.request.messages@) == request_messages(*req, continued(sessions@, *req)),
        json_texts(r.request.tools@) == chat_tools(req.tools@, req.tools@.len() as int),
        r.request.temperature == req.temperature,
        r.request.max_tokens == req.max_output_tokens,
        r.request.stream == req.stream,
        r.request.include_usage == req.stream,
        r.request.thinking == (quirks.glm_thinking && is_glm_name(req.model@)),
{
    let history: Vec<ChatMessage> = match &req.previous_response_id {
        Some(id) => {
            let history: Vec<ChatMessage> = sessions.get_history(id.as_str());
            if spawned_last(&history) && !has_output(&req.input) {
                Vec::new()
            } else {
                history
            }
        },
        None => Vec::new(),
    };
    assert(messages_view(history@) =~= continued(sessions@, *req));
    let mut url: String = upstream.to_owned();
    url.append("/chat/completions");
    let mut request: ChatRequest = to_chat_request(req, history);
    request.thinking = quirks.glm_thinking && is_glm_like_model(req.model.as_str());
    Outgoing { request, url }
}

/// The members of the body that is sent upstream: those in `extra` are added, or
/// take the place of others, and the first `n` of `dropped` are left out.
pub open spec fn shaped(
    body: Map<Seq<char>, Seq<char>>,
    extra: Map<Seq<char>, Seq<char>>,
    dropped: Seq<Seq<char>>,
    n: int,
) -> Map<Seq<char>, Seq<char>>
    decreases n,
{
    if n <= 0 {
        body.union_prefer_right(extra)
    } else {
        shaped(body, extra, dropped, n - 1).remove(dropped[n - 1])
    }
}

/// The members of the body of `request`, where `body` are those that it has anyway:
/// upstream is asked to report usage, and told to think.
pub open spec fn with_options(
    body: Map<Seq<char>, Seq<char>>,
    request: ChatRequest,
) -> Map<Seq<char>, Seq<char>> {
    let reported = if request.include_usage {
        body.insert(
            "stream_options"@,
            json_object(no_members().insert("include_usage"@, json_bool(true))),
        )
    } else {
        body
    };
    if request.thinking {
        reported.insert(
            "thinking"@,
            json_object(no_members().insert("type"@, json_string("enabled"@))),
        )
    } else {
        reported
    }
}

/// Shapes the body of `request`, which is sent upstream: adds what the request asks
/// for, then the extra members, and leaves out those that are dropped.
pub fn shape_body(
    body: serde_json::Map<String, Value>,
    request: &ChatRequest,
    extra: serde_json::Map<String, Value>,
    dropped: &Vec<String>,
) -> (r: serde_json::Map<String, Value>)
    ensures
        members_of(r) == shaped(
            with_options(members_of(body), *request),
            members_of(extra),
            texts(dropped@),
            dropped@.len() as int,
        ),
{
    let mut r: serde_json::Map<String, Value> = body;
    if request.include_usage {
        let mut options: serde_json::Map<String, Value> = empty_object();
        set_member(&mut options, "include_usage".to_owned(), bool_value(true));
        set_member(&mut r, "stream_options".to_owned(), object_value(options));
    }
    if request.thinking {
        let mut thinking: serde_json::Map<String, Value> = empty_object();
        set_text(&mut thinking, "type", "enabled");
        set_member(&mut r, "thinking".to_owned(), object_value(thinking));
    }
    let ghost asked = members_of(r);
    assert(asked == with_options(members_of(body), *request));
    merge_members(&mut r, extra);
    let mut i: usize = 0;
    while i < dropped.len()
        invariant
            i <= dropped@.len(),
            members_of(r) == shaped(asked, members_of(extra), texts(dropped@), i as int),
        decreases dropped@.len() - i,
    {
        drop_member(&mut r, dropped[i].as_str());
        i = i + 1;
    }
    r
}

/// Begins the translation of the stream that `out` asks for, under a fresh response
/// id. The turn that it will store starts with the messages sent upstream.
pub fn begin_stream(
    sessions: &SessionStore,
    out: &Outgoing,
    model: &str,
    tools: Vec<Tool>,
    quirks: Quirks,
) -> (r: StreamTranslation)
    ensures
        is_id(r@.id, "resp_"@),
        r@ == begun(r@.id, model@, messages_view(out.request.messages@), tools@, quirks),
{
    StreamTranslation::new(
        sessions.new_id(),
        model.to_owned(),
        copy_messages(&out.request.messages),
        tools,
        quirks,
    )
}

// ---------------------------------------------------------------------------
// Answers
// ---------------------------------------------------------------------------

/// How upstream answered a request that asked for no stream.
#[derive(Debug, PartialEq)]
pub enum Outcome {
    /// The request could not be sent.
    Failed { message: String },
    /// The request was answered with a status that is no success.
    Refused { status: u16, body: String },
    /// The body of the answer is no Chat Completions response.
    Unreadable { message: String },
    /// The request was answered.
    Answered(ChatResponse),
}

/// How the relay answers.
#[derive(Debug, PartialEq)]
pub enum Reply {
    /// With an error: its status, and its text.
    Error { status: u16, text: String },
    /// With a response.
    Response(ResponsesResponse),
}

/// The status with which a refusal is passed on: the same, if it is one that a
/// response can have, else that of a bad gateway.
pub open spec fn passed_on(status: u16) -> u16 {
    if 100 <= status <= 999 {
        status
    } else {
        502
    }
}

/// Whether `r` is the error with the given status and text.
pub open spec fn is_error(r: Reply, status: u16, text: Seq<char>) -> bool {
    r matches Reply::Error { status: s, text: t } && s == status && t@ == text
}

/// Whether `answered` is the message with which upstream answers, repaired, the
/// response `r` shows it, and the turn that it ends is stored under the id of the
/// response.
pub open spec fn passes_on(
    before: SessionStore,
    after: SessionStore,
    asked: Seq<MessageView>,
    model: Seq<char>,
    tools: Seq<Tool>,
    quirks: Quirks,
    chat: ChatResponse,
    r: ResponsesResponse,
    answered: MessageView,
) -> bool {
    &&& is_id(r.id@, "resp_"@)
    &&& repaired(answer(chat), quirks, answered)
    &&& is_response(
        r,
        r.id@,
        model,
        output_items(r.id@, tools, answered),
        usage_of(chat.usage),
    )
    &&& after@ == before@.insert(r.id@, asked.push(answered))
}

/// Whether the answer of upstream, repaired in some way, is passed on as the response
/// `r`, and the turn that it ends is stored.
pub open spec fn is_passed_on(
    before: SessionStore,
    after: SessionStore,
    asked: Seq<MessageView>,
    model: Seq<char>,
    tools: Seq<Tool>,
    quirks: Quirks,
    chat: ChatResponse,
    r: ResponsesResponse,
) -> bool {
    exists|answered: MessageView|
        #[trigger] passes_on(before, after, asked, model, tools, quirks, chat, r, answered)
}

/// Whether the relay, with the store `before`, answers `outcome` with `r` and leaves
/// the store `after`. A conversation is stored only where upstream has given an
/// answer, and then under the id of the response.
pub open spec fn settled(
    before: SessionStore,
    after: SessionStore,
    asked: Seq<MessageView>,
    model: Seq<char>,
    tools: Seq<Tool>,
    quirks: Quirks,
    outcome: Outcome,
    r: Reply,
) -> bool {
    match outcome {
        Outcome::Failed { message } => is_error(r, 502, message@) && after@ == before@,
        Outcome::Refused { status, body } => is_error(r, passed_on(status), body@) && after@
            == before@,
        Outcome::Unreadable { message } => is_error(r, 500, message@) && after@ == before@,
        Outcome::Answered(chat) => match r {
            Reply::Response(response) => is_passed_on(
                before,
                after,
                asked,
                model,
                tools,
                quirks,
                chat,
                response,
            ),
            Reply::Error { .. } => false,
        },
    }
}

/// What had to be repaired in what upstream answered.
pub open spec fn repairs_in(outcome: Outcome, quirks: Quirks, r: Repairs) -> bool {
    match outcome {
        Outcome::Answered(chat) => repairs_of(answer(chat), quirks, r),
        _ => !r.think_tags && r.dsml_heal == 0 && !r.missing_done,
    }
}

/// Answers a request that asked for no stream, once upstream has answered. `asked`
/// are the messages that were sent upstream. Says what had to be repaired, too.
pub fn settle(
    sessions: &mut SessionStore,
    asked: &Vec<ChatMessage>,
    model: &str,
    tools: &Vec<Tool>,
    quirks: Quirks,
    outcome: Outcome,
) -> (r: (Reply, Repairs))
    ensures
        settled(
            *old(sessions),
            *final(sessions),
            messages_view(asked@),
            model@,
            tools@,
            quirks,
            outcome,
            r.0,
        ),
        repairs_in(outcome, quirks, r.1),
{
    let nothing: Repairs = Repairs { think_tags: false, dsml_heal: 0, missing_done: false };
    match outcome {
        Outcome::Failed { message } => (Reply::Error { status: 502, text: message }, nothing),
        Outcome::Refused { status, body } => {
            let status: u16 = if 100 <= status && status <= 999 {
                status
            } else {
                502
            };
            (Reply::Error { status, text: body }, nothing)
        },
        Outcome::Unreadable { message } => (Reply::Error { status: 500, text: message }, nothing),
        Outcome::Answered(chat) => {
            let (response, repairs) = pass_on(sessions, asked, model, tools, quirks, chat);
            (Reply::Response(response), repairs)
        },
    }
}

/// Passes on what upstream has answered, and stores the turn that it ends.
fn pass_on(
    sessions: &mut SessionStore,
    asked: &Vec<ChatMessage>,
    model: &str,
    tools: &Vec<Tool>,
    quirks: Quirks,
    chat: ChatResponse,
) -> (r: (ResponsesResponse, Repairs))
    ensures
        is_passed_on(
            *old(sessions),
            *final(sessions),
            messages_view(asked@),
            model@,
            tools@,
            quirks,
            chat,
            r.0,
        ),
        repairs_of(answer(chat), quirks, r.1),
{
    let mut message: ChatMessage = if chat.choices.len() > 0 {
        chat.choices[0].message.clone()
    } else {
        ChatMessage::with_text("assistant", String::new())
    };
    assert(message@ == answer(chat));
    let repairs: Repairs = repair(&mut message, quirks);
    let ghost answered = message@;
    let mut history: Vec<ChatMessage> = copy_messages(asked);
    history.push(message.clone());
    assert(messages_view(history@) =~= messages_view(asked@).push(answered));
    let id: String = sessions.save(history);
    let response: ResponsesResponse = response_for(id, model, &message, chat.usage, tools);
    assert(passes_on(
        *old(sessions),
        *sessions,
        messages_view(asked@),
        model@,
        tools@,
        quirks,
        chat,
        response,
        answered,
    ));
    (response, repairs)
}

// ---------------------------------------------------------------------------
// Laws
// ---------------------------------------------------------------------------

/// A request that continues a stored turn sends all of it upstream, followed by the
/// new input, unless it comes from a child agent that the turn spawned. The system
/// prompt is not injected again.
pub proof fn law_conversation_goes_on(
    stored: Map<Seq<char>, Seq<MessageView>>,
    turn: Seq<MessageView>,
    req: ResponsesRequest,
    id: String,
)
    requires
        req.previous_response_id == Some(id),
        turn.len() > 0,
        req.system is Some ==> turn[0].role == "system"@,
        ends_in_spawn(turn) ==> answers_call(req.input),
    ensures
        request_messages(req, continued(stored.insert(id@, turn), req)) == turn + input_messages(
            req.input,
            req.tools@,
        ),
{
}

/// What a request sends that starts a conversation: the system prompt, if there is
/// one, and the input.
pub open spec fn only_own(req: ResponsesRequest) -> Seq<MessageView> {
    let prompt = match req.system {
        Some(prompt) => seq![plain("system"@, prompt@)],
        None => Seq::empty(),
    };
    prompt + input_messages(req.input, req.tools@)
}

/// A request that names no response, or one that is not stored, starts a
/// conversation.
pub proof fn law_conversation_starts(
    stored: Map<Seq<char>, Seq<MessageView>>,
    req: ResponsesRequest,
)
    requires
        req.previous_response_id matches Some(id) ==> !stored.contains_key(id@),
    ensures
        request_messages(req, continued(stored, req)) == only_own(req),
{
    lemma_own(req);
}

/// A child agent that reuses the response id of its parent sends only its own
/// context upstream: neither the prompt of the parent nor the call that spawned it.
pub proof fn law_child_is_isolated(
    stored: Map<Seq<char>, Seq<MessageView>>,
    turn: Seq<MessageView>,
    req: ResponsesRequest,
    id: String,
)
    requires
        req.previous_response_id == Some(id),
        ends_in_spawn(turn),
        !answers_call(req.input),
    ensures
        request_messages(req, continued(stored.insert(id@, turn), req)) == only_own(req),
{
    lemma_own(req);
}

/// A member that is dropped is not sent upstream, whatever else is asked for.
pub proof fn law_dropped_member_is_left_out(
    body: Map<Seq<char>, Seq<char>>,
    extra: Map<Seq<char>, Seq<char>>,
    dropped: Seq<Seq<char>>,
    n: int,
    i: int,
)
    requires
        0 <= i < n <= dropped.len(),
    ensures
        !shaped(body, extra, dropped, n).contains_key(dropped[i]),
    decreases n,
{
    if i < n - 1 {
        law_dropped_member_is_left_out(body, extra, dropped, n - 1, i);
    }
}

/// A member that is not dropped is sent as the extra members have it, or else as the
/// request has it.
pub proof fn law_extra_member_is_sent(
    body: Map<Seq<char>, Seq<char>>,
    extra: Map<Seq<char>, Seq<char>>,
    dropped: Seq<Seq<char>>,
    n: int,
    name: Seq<char>,
)
    requires
        0 <= n <= dropped.len(),
        forall|i: int| 0 <= i < n ==> #[trigger] dropped[i] != name,
    ensures
        ({
            let sent = shaped(body, extra, dropped, n);
            if extra.contains_key(name) {
                sent.contains_key(name) && sent[name] == extra[name]
            } else {
                sent.contains_key(name) == body.contains_key(name) && (body.contains_key(name)
                    ==> sent[name] == body[name])
            }
        }),
    decreases n,
{
    if n > 0 {
        law_extra_member_is_sent(body, extra, dropped, n - 1, name);
        assert(dropped[n - 1] != name);
    }
}

proof fn lemma_own(req: ResponsesRequest)
    ensures
        request_messages(req, Seq::empty()) == only_own(req),
{
    let none = Seq::<MessageView>::empty();
    if let Some(prompt) = req.system {
        assert(seq![plain("system"@, prompt@)] + none =~= seq![plain("system"@, prompt@)]);
    }
}

} // verus!
