//! The translation of one upstream stream.

use super::events::{
    close_items, completed, created, created_event, events_view, failed, item_added,
    reasoning_delta, refused, text_delta, unsent, SseEvent,
};
use super::state::{
    all_filtered, bare, begun, begun_message, call_came, calls_came, choice_came, choices_came,
    chunk_came, completes, content_came, drained, extended, filtered, ids_needed, in_full,
    last_events, last_message, lemma_drained_keeps, parted, place_of, reasoning_in, repairs_at,
    spoke, step_after, steps_to, thought, whole_calls, whole_message, Next, PartialView, Progress,
    Stepped, StreamState, Upstream,
};
use crate::dsml::heal::{are_call_ids, identified, synthesize_call_id};
use crate::dsml::parser::calls_seen;
use crate::dsml::{DsmlStreamFilter, DsmlToolCall};
use crate::ids::is_id;
use crate::output::{output_items, outputs, prefixed, reasoning_output};
use crate::quirks::Quirks;
use crate::session::SessionStore;
use crate::text::{
    char_count, chars_of, concat, leading_white, lemma_trim_start, skip_whitespace, stands_at,
    string_of, texts, trimmed,
};
use crate::think::filter::text_comes_first;
use crate::think::{ThinkSplit, ThinkStreamFilter};
use crate::translate::Repairs;
use crate::types::{
    calls_view, copy_messages, messages_view, parts_view, ChatMessage, ChatStreamChoice,
    ChatStreamChunk, ChatUsage, ContentPart, MessageContent, PartView, ResponsesOutputItem, Tool,
    ToolCall, ToolCallDelta,
};
use vstd::prelude::*;
use vstd::string::*;

verus! {

/// A step of the translation: the events to send, what to do next, and what had to be
/// repaired.
#[derive(Debug, PartialEq, Eq)]
pub struct Step {
    pub events: Vec<SseEvent>,
    pub next: Next,
    pub repairs: Repairs,
}

/// A tool call as far as it has been streamed.
#[derive(Debug)]
struct PartialCall {
    index: u32,
    id: String,
    name: String,
    arguments: String,
}

impl View for PartialCall {
    type V = PartialView;

    closed spec fn view(&self) -> PartialView {
        PartialView {
            index: self.index,
            id: self.id@,
            name: self.name@,
            arguments: self.arguments@,
        }
    }
}

/// What the calls are that have been streamed.
spec fn partials(calls: Seq<PartialCall>) -> Seq<PartialView> {
    calls.map_values(|c: PartialCall| c@)
}

/// A translation of one upstream stream.
#[derive(Debug)]
pub struct StreamTranslation {
    response_id: String,
    model: String,
    asked: Vec<ChatMessage>,
    tools: Vec<Tool>,
    quirks: Quirks,
    think: ThinkStreamFilter,
    opening: Vec<String>,
    dsml: DsmlStreamFilter,
    reasoning: String,
    accumulated: String,
    announced: bool,
    calls: Vec<PartialCall>,
    usage: Option<ChatUsage>,
    finished: bool,
}

impl View for StreamTranslation {
    type V = StreamState;

    closed spec fn view(&self) -> StreamState {
        StreamState {
            id: self.response_id@,
            model: self.model@,
            asked: messages_view(self.asked@),
            tools: self.tools@,
            quirks: self.quirks,
            think: self.think@,
            opening: texts(self.opening@),
            dsml: self.dsml@,
            reasoning: self.reasoning@,
            text: self.accumulated@,
            announced: self.announced,
            calls: partials(self.calls@),
            usage: self.usage,
            finished: self.finished,
        }
    }
}

/// Where a translation stands that has sent the given events.
pub open spec fn progress(st: StreamState, events: Seq<SseEvent>) -> Progress {
    Progress { st, sent: events_view(events) }
}

impl StreamTranslation {
    /// The translation of a stream that has not begun: `asked` are the messages
    /// that are sent upstream, `tools` the tools that the request declares.
    pub fn new(
        response_id: String,
        model: String,
        asked: Vec<ChatMessage>,
        tools: Vec<Tool>,
        quirks: Quirks,
    ) -> (r: Self)
        ensures
            r@ == begun(response_id@, model@, messages_view(asked@), tools@, quirks),
    {
        let r: StreamTranslation = StreamTranslation {
            response_id,
            model,
            asked,
            tools,
            quirks,
            think: ThinkStreamFilter::new(quirks.think_tags),
            opening: Vec::new(),
            dsml: DsmlStreamFilter::new(quirks.dsml_heal),
            reasoning: String::new(),
            accumulated: String::new(),
            announced: false,
            calls: Vec::new(),
            usage: None,
            finished: false,
        };
        assert(r@ =~= begun(response_id@, model@, messages_view(asked@), tools@, quirks));
        r
    }

    /// The event to send before anything is heard from upstream, so that the
    /// client knows the response id.
    pub fn created(&self) -> (r: SseEvent)
        ensures
            r@ == created_event(self@.id, self@.model),
    {
        created(self.response_id.as_str(), self.model.as_str())
    }

    /// Something more was thought.
    fn think_aloud(&mut self, s: &str, events: &mut Vec<SseEvent>)
        ensures
            progress(final(self)@, final(events)@) == thought(
                progress(old(self)@, old(events)@),
                s@,
            ),
    {
        if s.is_empty() {
            return;
        }
        let ghost before = progress(self@, events@);
        if self.reasoning.as_str().is_empty() {
            let nothing: String = String::new();
            assert(nothing@ =~= Seq::empty());
            let item: ResponsesOutputItem = reasoning_output(self.response_id.as_str(), nothing);
            events.push(item_added(0, &item));
        }
        let item_id: String = prefixed("rs_", self.response_id.as_str());
        events.push(reasoning_delta(item_id.as_str(), s));
        self.reasoning.append(s);
        assert(progress(self@, events@) =~= thought(before, s@));
    }

    /// Something more is said.
    fn speak(&mut self, s: &str, events: &mut Vec<SseEvent>)
        ensures
            progress(final(self)@, final(events)@) == spoke(progress(old(self)@, old(events)@), s@),
    {
        if s.is_empty() {
            return;
        }
        let ghost before = progress(self@, events@);
        if self.accumulated.as_str().is_empty() && !self.reasoning.as_str().is_empty() {
            self.announced = true;
            let none: Vec<ContentPart> = Vec::new();
            assert(parts_view(none@) =~= Seq::<PartView>::empty());
            let item: ResponsesOutputItem = ResponsesOutputItem::Message {
                role: "assistant".to_owned(),
                content: none,
            };
            assert(item@ == begun_message());
            events.push(item_added(1, &item));
        }
        events.push(text_delta(s));
        self.accumulated.append(s);
        assert(progress(self@, events@) =~= spoke(before, s@));
    }

    /// Text has come out of the filter for what was thought.
    fn let_through(&mut self, s: &str, events: &mut Vec<SseEvent>)
        ensures
            progress(final(self)@, final(events)@) == filtered(
                progress(old(self)@, old(events)@),
                s@,
            ),
    {
        let safe: String = self.dsml.push(s);
        self.speak(safe.as_str(), events);
    }

    /// A piece of content has come.
    fn take_content(&mut self, s: &str, events: &mut Vec<SseEvent>)
        ensures
            progress(final(self)@, final(events)@) == content_came(
                progress(old(self)@, old(events)@),
                s@,
            ),
    {
        let undecided: bool = self.think.is_undecided();
        let split: ThinkSplit = self.think.push(s);
        if !undecided {
            self.think_aloud(split.reasoning.as_str(), events);
            self.let_through(split.text.as_str(), events);
        } else if self.think.is_undecided() {
            let ghost before = texts(self.opening@);
            self.opening.push(s.to_owned());
            assert(texts(self.opening@) =~= before.push(s@));
        } else {
            let waiting: Vec<String> = self.take_opening();
            let mut raw: String = joined(&waiting);
            raw.append(s);
            let full: String = whole_text(raw.as_str(), self.think.fired(), split.text.as_str());
            let (earlier, now) = part(waiting, full.as_str());
            self.let_all_through(&earlier, events);
            self.think_aloud(split.reasoning.as_str(), events);
            self.let_through(now.as_str(), events);
        }
    }

    /// Takes out the pieces that wait.
    fn take_opening(&mut self) -> (r: Vec<String>)
        ensures
            texts(r@) == old(self)@.opening,
            final(self)@ == (StreamState { opening: Seq::empty(), ..old(self)@ }),
    {
        let mut waiting: Vec<String> = Vec::new();
        std::mem::swap(&mut self.opening, &mut waiting);
        assert(texts(self.opening@) =~= Seq::empty());
        waiting
    }

    /// Several texts have come out of the filter for what was thought.
    fn let_all_through(&mut self, pieces: &Vec<String>, events: &mut Vec<SseEvent>)
        ensures
            progress(final(self)@, final(events)@) == all_filtered(
                progress(old(self)@, old(events)@),
                texts(pieces@),
            ),
    {
        let ghost before = progress(self@, events@);
        let ghost all = texts(pieces@);
        let mut i: usize = 0;
        while i < pieces.len()
            invariant
                i <= pieces@.len(),
                all == texts(pieces@),
                progress(self@, events@) == all_filtered(before, all.take(i as int)),
            decreases pieces@.len() - i,
        {
            self.let_through(pieces[i].as_str(), events);
            proof {
                assert(all.take(i + 1).drop_last() =~= all.take(i as int));
                assert(all.take(i + 1).last() == pieces@[i as int]@);
            }
            i = i + 1;
        }
        assert(all.take(i as int) =~= all);
    }

    /// The place of the call with that index.
    fn find_call(&self, index: u32) -> (r: Option<usize>)
        ensures
            match r {
                Some(at) => place_of(self@.calls, index, 0) == Some(at as int) && at
                    < self@.calls.len(),
                None => place_of(self@.calls, index, 0) is None,
            },
    {
        let mut i: usize = 0;
        while i < self.calls.len()
            invariant
                i <= self.calls@.len() == self@.calls.len(),
                place_of(self@.calls, index, 0) == place_of(self@.calls, index, i as int),
            decreases self.calls@.len() - i,
        {
            assert(self@.calls[i as int] == self.calls@[i as int]@);
            if self.calls[i].index == index {
                return Some(i);
            }
            i = i + 1;
        }
        None
    }

    /// A piece of a tool call has come.
    fn take_call(&mut self, delta: &ToolCallDelta)
        ensures
            final(self)@ == (StreamState {
                calls: call_came(old(self)@.calls, *delta),
                ..old(self)@
            }),
    {
        let ghost before = self@;
        match self.find_call(delta.index) {
            Some(at) => {
                let mut call: PartialCall = PartialCall {
                    index: self.calls[at].index,
                    id: self.calls[at].id.clone(),
                    name: self.calls[at].name.clone(),
                    arguments: self.calls[at].arguments.clone(),
                };
                extend_call(&mut call, delta);
                self.calls.set(at, call);
                assert(self@.calls =~= before.calls.update(
                    at as int,
                    extended(before.calls[at as int], *delta),
                ));
            },
            None => {
                let mut call: PartialCall = PartialCall {
                    index: delta.index,
                    id: String::new(),
                    name: String::new(),
                    arguments: String::new(),
                };
                assert(call@ =~= bare(delta.index));
                extend_call(&mut call, delta);
                self.calls.push(call);
                assert(self@.calls =~= before.calls.push(extended(bare(delta.index), *delta)));
            },
        }
    }

    /// A choice of a chunk has come.
    fn take_choice(&mut self, choice: &ChatStreamChoice, events: &mut Vec<SseEvent>)
        ensures
            progress(final(self)@, final(events)@) == choice_came(
                progress(old(self)@, old(events)@),
                *choice,
            ),
    {
        match thought_of(choice) {
            Some(reasoning) => self.think_aloud(reasoning, events),
            None => {},
        }
        match &choice.content {
            Some(content) => {
                if !content.as_str().is_empty() {
                    self.take_content(content.as_str(), events);
                }
            },
            None => {},
        }
        let ghost said = self@;
        let mut i: usize = 0;
        while i < choice.tool_calls.len()
            invariant
                i <= choice.tool_calls@.len(),
                self@ == (StreamState {
                    calls: calls_came(said.calls, choice.tool_calls@, i as int),
                    ..said
                }),
            decreases choice.tool_calls@.len() - i,
        {
            self.take_call(&choice.tool_calls[i]);
            i = i + 1;
        }
        self.finished = self.finished || choice.finished;
    }

    /// A chunk has come.
    fn take_chunk(&mut self, chunk: &ChatStreamChunk, events: &mut Vec<SseEvent>)
        ensures
            progress(final(self)@, final(events)@) == chunk_came(
                progress(old(self)@, old(events)@),
                *chunk,
            ),
    {
        let ghost before = progress(self@, events@);
        let mut i: usize = 0;
        while i < chunk.choices.len()
            invariant
                i <= chunk.choices@.len(),
                progress(self@, events@) == choices_came(before, chunk.choices@, i as int),
            decreases chunk.choices@.len() - i,
        {
            self.take_choice(&chunk.choices[i], events);
            i = i + 1;
        }
        if chunk.usage.is_some() {
            self.usage = chunk.usage;
        }
    }

    /// Takes out of the filters what they withhold; gives the leaked calls that heal.
    fn drain(&mut self, events: &mut Vec<SseEvent>) -> (r: Vec<DsmlToolCall>)
        ensures
            (progress(final(self)@, final(events)@), calls_seen(r@)) == drained(
                progress(old(self)@, old(events)@),
            ),
    {
        let quirks: Quirks = self.quirks;
        let mut think: ThinkStreamFilter = ThinkStreamFilter::new(quirks.think_tags);
        std::mem::swap(&mut self.think, &mut think);
        let undecided: bool = think.is_undecided();
        let split: ThinkSplit = think.finish();
        let waiting: Vec<String> = self.take_opening();
        let ghost emptied = progress(self@, events@);
        if undecided {
            let raw: String = joined(&waiting);
            let full: String = whole_text(raw.as_str(), false, split.text.as_str());
            let (earlier, now) = part(waiting, full.as_str());
            self.let_all_through(&earlier, events);
            self.think_aloud(split.reasoning.as_str(), events);
            self.let_through(now.as_str(), events);
        } else {
            assert(all_filtered(emptied, Seq::empty()) == emptied);
            self.think_aloud(split.reasoning.as_str(), events);
            self.let_through(split.text.as_str(), events);
        }
        let mut dsml: DsmlStreamFilter = DsmlStreamFilter::new(quirks.dsml_heal);
        std::mem::swap(&mut self.dsml, &mut dsml);
        let (rest, calls) = dsml.finish();
        self.speak(rest.as_str(), events);
        calls
    }

    /// The message that the response amounts to when the leaked calls get the given
    /// ids.
    fn message(&self, healed: &Vec<DsmlToolCall>, ids: &Vec<String>) -> (r: ChatMessage)
        requires
            ids@.len() == healed@.len(),
        ensures
            r@ == last_message(self@, calls_seen(healed@), texts(ids@)),
    {
        let mut calls: Vec<ToolCall> = Vec::new();
        let mut i: usize = 0;
        while i < self.calls.len()
            invariant
                i <= self.calls@.len(),
                calls@.len() == i,
                forall|j: int|
                    0 <= j < i ==> (#[trigger] calls@[j])@ == whole_calls(self@.calls)[j],
            decreases self.calls@.len() - i,
        {
            let call: &PartialCall = &self.calls[i];
            calls.push(
                ToolCall::Function {
                    id: call.id.clone(),
                    name: call.name.clone(),
                    arguments: call.arguments.clone(),
                },
            );
            i = i + 1;
        }
        let ghost own = whole_calls(self@.calls);
        let ghost added = identified(calls_seen(healed@), texts(ids@));
        assert(calls_view(calls@) =~= own + added.take(0));
        let mut k: usize = 0;
        while k < healed.len()
            invariant
                k <= healed@.len() == ids@.len(),
                added == identified(calls_seen(healed@), texts(ids@)),
                calls_view(calls@) == own + added.take(k as int),
            decreases healed@.len() - k,
        {
            let call: &DsmlToolCall = &healed[k];
            let ghost so_far = calls_view(calls@);
            calls.push(
                ToolCall::Function {
                    id: ids[k].clone(),
                    name: call.name.clone(),
                    arguments: call.arguments.clone(),
                },
            );
            proof {
                assert(calls_view(calls@) =~= so_far.push(added[k as int]));
                assert(own + added.take(k + 1) =~= so_far.push(added[k as int]));
            }
            k = k + 1;
        }
        assert(added.take(k as int) =~= added);
        let ghost all = calls_view(calls@);
        let silent: bool = self.accumulated.as_str().is_empty() && calls.len() > 0;
        let r: ChatMessage = ChatMessage {
            role: "assistant".to_owned(),
            content: if silent {
                None
            } else {
                Some(MessageContent::Text(self.accumulated.clone()))
            },
            reasoning_content: if self.reasoning.as_str().is_empty() {
                None
            } else {
                Some(self.reasoning.clone())
            },
            tool_calls: if calls.len() > 0 {
                Some(calls)
            } else {
                None
            },
            tool_call_id: None,
            name: None,
        };
        assert(all.len() == 0 <==> own.len() + added.len() == 0);
        assert(r@ =~= whole_message(self@, all));
        r
    }

    /// Ends a response: stores the complete turn, and gives the events with which it
    /// ends. The leaked calls get the given ids.
    pub fn complete(
        &self,
        healed: &Vec<DsmlToolCall>,
        ids: &Vec<String>,
        sessions: &mut SessionStore,
        events: &mut Vec<SseEvent>,
    )
        requires
            ids@.len() == healed@.len(),
        ensures
            ({
                let m = last_message(self@, calls_seen(healed@), texts(ids@));
                &&& final(sessions)@ == old(sessions)@.insert(self@.id, self@.asked.push(m))
                &&& events_view(final(events)@) == events_view(old(events)@) + last_events(self@, m)
            }),
    {
        let message: ChatMessage = self.message(healed, ids);
        let ghost m = message@;
        let items: Vec<ResponsesOutputItem> = outputs(
            self.response_id.as_str(),
            &self.tools,
            &message,
        );
        let ghost before = events_view(events@);
        let ghost shown = output_items(self@.id, self@.tools, m);
        assert(shown.len() == items@.len());
        close_items(events, &items, self.announced);
        let ghost closed = events_view(events@);
        let last: SseEvent = completed(
            self.response_id.as_str(),
            self.model.as_str(),
            &items,
            &self.usage,
        );
        let ghost ending = last@;
        events.push(last);
        assert(events_view(events@) =~= closed.push(ending));
        assert(events_view(events@) =~= before + last_events(self@, m));
        let mut messages: Vec<ChatMessage> = copy_messages(&self.asked);
        messages.push(message);
        assert(messages_view(messages@) =~= self@.asked.push(m));
        sessions.save_with_id(self.response_id.clone(), messages);
    }

    /// Takes in what has come from upstream: gives the events to send, and what
    /// to do next. When the response is complete, the turn is stored; calls that
    /// leaked into its text get ids of their own.
    pub fn step(&mut self, heard: Upstream, sessions: &mut SessionStore) -> (r: Step)
        ensures
            steps_to(
                old(self)@,
                old(sessions)@,
                heard,
                (Stepped {
                    st: final(self)@,
                    stored: final(sessions)@,
                    events: events_view(r.events@),
                    next: r.next,
                }),
            ),
            repairs_at(old(self)@, heard, r.repairs),
    {
        let nothing: Repairs = Repairs { think_tags: false, dsml_heal: 0, missing_done: false };
        let mut events: Vec<SseEvent> = Vec::new();
        let ghost st = self@;
        let ghost stored = sessions@;
        let ghost none = Seq::<Seq<char>>::empty();
        assert(events_view(events@) =~= Seq::empty());
        let over: bool = match &heard {
            Upstream::Broken | Upstream::Closed => true,
            _ => false,
        };
        if self.is_complete(&heard) {
            let think_tags: bool = self.think.fired();
            let healed: Vec<DsmlToolCall> = self.drain(&mut events);
            let ids: Vec<String> = new_ids(healed.len());
            let ghost sent = events_view(events@);
            self.complete(&healed, &ids, sessions, &mut events);
            proof {
                let given = texts(ids@);
                lemma_drained_keeps(Progress { st, sent: Seq::empty() });
                assert(are_call_ids(given, ids_needed(st, heard) as int));
                assert((Stepped {
                    st: self@,
                    stored: sessions@,
                    events: events_view(events@),
                    next: Next::Stop,
                }) =~= step_after(st, stored, heard, given));
            }
            let repairs: Repairs = Repairs {
                think_tags,
                dsml_heal: healed.len(),
                missing_done: over,
            };
            return Step { events, next: Next::Stop, repairs };
        }
        assert(are_call_ids(none, ids_needed(st, heard) as int));
        let next: Next = match &heard {
            Upstream::Refused { status, body } => {
                events.push(refused(*status, body.as_str()));
                Next::Stop
            },
            Upstream::Failed { message } => {
                events.push(unsent(message.as_str()));
                Next::Stop
            },
            Upstream::Data(data) => {
                if data.as_str().is_empty() {
                    Next::Read
                } else {
                    Next::Parse
                }
            },
            Upstream::Chunk(chunk) => {
                self.take_chunk(chunk, &mut events);
                Next::Read
            },
            Upstream::Unreadable => Next::Read,
            Upstream::Broken | Upstream::Closed => {
                events.push(failed(self.response_id.as_str(), self.model.as_str()));
                Next::Stop
            },
        };
        assert((Stepped {
            st: self@,
            stored: sessions@,
            events: events_view(events@),
            next,
        }) =~= step_after(st, stored, heard, none));
        Step { events, next, repairs: nothing }
    }

    /// Whether what is heard completes the response.
    fn is_complete(&self, heard: &Upstream) -> (r: bool)
        ensures
            r == completes(self@, *heard),
    {
        match heard {
            Upstream::Data(data) => {
                let chars: Vec<char> = chars_of(data.as_str());
                assert(chars@.subrange(0, chars@.len() as int) =~= data@);
                trimmed(chars.as_slice(), 0, chars.len()) == "[DONE]".to_owned()
            },
            Upstream::Broken | Upstream::Closed => self.finished && self.quirks.missing_done,
            _ => false,
        }
    }
}

/// Some pieces, one after the other.
fn joined(pieces: &Vec<String>) -> (r: String)
    ensures
        r@ == concat(texts(pieces@)),
{
    let ghost all = texts(pieces@);
    let mut r: String = String::new();
    let mut i: usize = 0;
    assert(r@ =~= concat(all.take(0)));
    while i < pieces.len()
        invariant
            i <= pieces@.len(),
            all == texts(pieces@),
            r@ == concat(all.take(i as int)),
        decreases pieces@.len() - i,
    {
        r.append(pieces[i].as_str());
        proof {
            assert(all.take(i + 1).drop_last() =~= all.take(i as int));
            assert(all.take(i + 1).last() == pieces@[i as int]@);
        }
        i = i + 1;
    }
    assert(all.take(i as int) =~= all);
    r
}

/// The visible text that comes out of the filter for what was thought when it decides.
fn whole_text(raw: &str, fired: bool, text: &str) -> (r: String)
    ensures
        r@ == in_full(raw@, fired, text@),
{
    let chars: Vec<char> = chars_of(raw);
    if !fired || text_comes_first(chars.as_slice()) {
        let width: usize = skip_whitespace(chars.as_slice(), 0);
        let mut r: String = string_of(chars.as_slice(), 0, width);
        proof {
            lemma_trim_start(raw@);
            assert(r@ =~= leading_white(raw@));
        }
        r.append(text);
        r
    } else {
        text.to_owned()
    }
}

/// The parts of a text that begins with the pieces that waited for it.
fn part(waiting: Vec<String>, text: &str) -> (r: (Vec<String>, String))
    ensures
        (texts(r.0@), r.1@) == parted(texts(waiting@), text@),
{
    let chars: Vec<char> = chars_of(text);
    let lead: String = joined(&waiting);
    if stands_at(chars.as_slice(), 0, lead.as_str()) {
        let width: usize = char_count(lead.as_str());
        let rest: String = string_of(chars.as_slice(), width, chars.len());
        assert(rest@ =~= text@.skip(lead@.len() as int));
        (waiting, rest)
    } else {
        let none: Vec<String> = Vec::new();
        assert(texts(none@) =~= Seq::empty());
        (none, text.to_owned())
    }
}

/// What a choice says was thought.
fn thought_of(choice: &ChatStreamChoice) -> (r: Option<&str>)
    ensures
        reasoning_in(*choice) == match r {
            Some(reasoning) => reasoning@,
            None => Seq::empty(),
        },
{
    match &choice.reasoning_content {
        Some(reasoning) => {
            if !reasoning.as_str().is_empty() {
                return Some(reasoning.as_str());
            }
        },
        None => {},
    }
    match &choice.reasoning {
        Some(reasoning) => Some(reasoning.as_str()),
        None => None,
    }
}

/// Adds to a call what `delta` holds.
fn extend_call(call: &mut PartialCall, delta: &ToolCallDelta)
    ensures
        final(call)@ == extended(old(call)@, *delta),
{
    match &delta.id {
        Some(id) => {
            call.id = id.clone();
        },
        None => {},
    }
    match &delta.name {
        Some(name) => {
            call.name = name.clone();
        },
        None => {},
    }
    match &delta.arguments {
        Some(arguments) => call.arguments.append(arguments.as_str()),
        None => {},
    }
}

/// `n` new ids for healed calls.
fn new_ids(n: usize) -> (r: Vec<String>)
    ensures
        are_call_ids(texts(r@), n as int),
{
    let mut ids: Vec<String> = Vec::new();
    while ids.len() < n
        invariant
            ids@.len() <= n,
            forall|i: int| 0 <= i < ids@.len() ==> is_id((#[trigger] ids@[i])@, "call_dsml_"@),
        decreases n - ids@.len(),
    {
        ids.push(synthesize_call_id());
    }
    ids
}

} // verus!
