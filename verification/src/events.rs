//! CloudEvents, event matching and an in-memory broker.
use crate::error::WorkflowError;
use crate::expressions::operators::{equal, is_equal, member_of};
use crate::json::{Json, Object, Value};
use crate::service::{EventMessage, EventSubscription, MessageModel, bare_message};
use crate::text::{opt_view, text_eq};
use crate::value::{copy_option, copy_text, lookup, option_json};
use vstd::prelude::*;

verus! {

broadcast use crate::json::group_json;

/// The version of the CloudEvents specification.
pub const CLOUDEVENTS_SPEC_VERSION: &'static str = "1.0";

/// A CloudEvent.
#[derive(Debug)]
pub struct CloudEvent {
    /// Identifies the event.
    pub id: String,
    /// Where the event happened.
    pub source: String,
    /// The type of the event.
    pub type_: String,
    /// The version of the CloudEvents specification.
    pub specversion: String,
    /// When the event happened.
    pub time: Option<String>,
    /// What the event is about.
    pub subject: Option<String>,
    /// The content type of the data.
    pub data_content_type: Option<String>,
    /// The schema of the data.
    pub data_schema: Option<String>,
    /// The data.
    pub data: Option<Value>,
    /// Further attributes.
    pub extensions: Object,
}

/// The model of a [`CloudEvent`]: a message and a version.
pub ghost struct EventModel {
    pub message: MessageModel,
    pub specversion: Seq<char>,
}

impl View for CloudEvent {
    type V = EventModel;

    open spec fn view(&self) -> EventModel {
        EventModel {
            message: MessageModel {
                id: self.id@,
                source: self.source@,
                type_: self.type_@,
                time: opt_view(self.time),
                subject: opt_view(self.subject),
                data_content_type: opt_view(self.data_content_type),
                data_schema: opt_view(self.data_schema),
                data: option_json(self.data),
                extensions: self.extensions@,
            },
            specversion: self.specversion@,
        }
    }
}

impl CloudEvent {
    /// An event with an identity, a source and a type.
    pub fn new(id: &str, source: &str, type_: &str) -> (r: Self)
        ensures
            r@ == (EventModel {
                message: bare_message(id@, source@, type_@),
                specversion: CLOUDEVENTS_SPEC_VERSION@,
            }),
    {
        Self {
            id: id.to_owned(),
            source: source.to_owned(),
            type_: type_.to_owned(),
            specversion: CLOUDEVENTS_SPEC_VERSION.to_owned(),
            time: None,
            subject: None,
            data_content_type: None,
            data_schema: None,
            data: None,
            extensions: Object::new(),
        }
    }

    /// The event with data.
    pub fn with_data(self, data: Value) -> (r: Self)
        ensures
            r@ == (EventModel {
                message: MessageModel { data: Some(data@), ..self@.message },
                ..self@
            }),
    {
        Self { data: Some(data), ..self }
    }

    /// The event with a time.
    pub fn with_time(self, time: &str) -> (r: Self)
        ensures
            r@ == (EventModel {
                message: MessageModel { time: Some(time@), ..self@.message },
                ..self@
            }),
    {
        Self { time: Some(time.to_owned()), ..self }
    }

    /// The event as a message.
    pub fn to_message(&self) -> (r: EventMessage)
        ensures
            r@ == self@.message,
    {
        EventMessage {
            id: self.id.clone(),
            source: self.source.clone(),
            type_: self.type_.clone(),
            time: copy_text(&self.time),
            subject: copy_text(&self.subject),
            data_content_type: copy_text(&self.data_content_type),
            data_schema: copy_text(&self.data_schema),
            data: copy_option(&self.data),
            extensions: self.extensions.clone(),
        }
    }

    /// A message as an event.
    pub fn from_message(msg: &EventMessage) -> (r: Self)
        ensures
            r@ == event_of(msg@),
    {
        Self {
            id: msg.id.clone(),
            source: msg.source.clone(),
            type_: msg.type_.clone(),
            specversion: CLOUDEVENTS_SPEC_VERSION.to_owned(),
            time: copy_text(&msg.time),
            subject: copy_text(&msg.subject),
            data_content_type: copy_text(&msg.data_content_type),
            data_schema: copy_text(&msg.data_schema),
            data: copy_option(&msg.data),
            extensions: msg.extensions.clone(),
        }
    }
}

/// The event of a message.
pub open spec fn event_of(m: MessageModel) -> EventModel {
    EventModel { message: m, specversion: CLOUDEVENTS_SPEC_VERSION@ }
}

/// An event of the current version that becomes a message and an event again is
/// the same event, and so is a message that becomes an event and a message.
pub proof fn law_message_round_trip(e: EventModel, m: MessageModel)
    requires
        e.specversion == CLOUDEVENTS_SPEC_VERSION@,
    ensures
        event_of(e.message) == e,
        event_of(m).message == m,
{
}

// ---------------------------------------------------------------------------
// Matching
// ---------------------------------------------------------------------------

/// Whether a text is a regular expression.
pub uninterp spec fn regex_valid(pattern: Seq<char>) -> bool;

/// Whether a regular expression is found in a text.
pub uninterp spec fn regex_found(pattern: Seq<char>, text: Seq<char>) -> bool;

/// Trusted: `regex::Regex::new` accepts a pattern or not, by the pattern alone.
#[verifier::external_body]
fn regex_accepts(pattern: &str) -> (r: bool)
    ensures
        r == regex_valid(pattern@),
{
    regex::Regex::new(pattern).is_ok()
}

/// Trusted: `regex::Regex::is_match` finds a valid pattern in a text or not, by
/// the two alone.
#[verifier::external_body]
fn regex_is_match(pattern: &str, text: &str) -> (r: bool)
    requires
        regex_valid(pattern@),
    ensures
        r == regex_found(pattern@, text@),
{
    regex::Regex::new(pattern).map(|re| re.is_match(text)).unwrap_or(false)
}

/// A valid regular expression.
#[derive(Debug)]
pub struct Pattern {
    text: String,
}

impl Pattern {
    /// The text of the expression.
    pub closed spec fn source(self) -> Seq<char> {
        self.text@
    }

    #[verifier::type_invariant]
    closed spec fn is_valid(self) -> bool {
        regex_valid(self.text@)
    }

    /// The regular expression that a text is, if it is one.
    pub fn new(text: &str) -> (r: Option<Pattern>)
        ensures
            match r {
                Some(p) => regex_valid(text@) && p.source() == text@,
                None => !regex_valid(text@),
            },
    {
        if regex_accepts(text) {
            Some(Pattern { text: text.to_owned() })
        } else {
            None
        }
    }

    /// Whether the expression is found in a text.
    pub fn is_match(&self, text: &str) -> (r: bool)
        ensures
            r == regex_found(self.source(), text@),
    {
        proof {
            use_type_invariant(self);
        }
        regex_is_match(self.text.as_str(), text)
    }
}

/// A constraint on an attribute of an event.
pub enum FieldConstraint<F> {
    /// The value is equal to a given one.
    Equals(Value),
    /// The value is a string in which an expression is found.
    MatchesRegex(Pattern),
    /// The event satisfies a predicate.
    Expression(F),
}

/// Matches events against constraints.
pub struct EventMatcher<F> {
    /// The type to match, if any.
    pub type_: Option<String>,
    /// The source to match, if any.
    pub source: Option<String>,
    /// The subject to match, if any.
    pub subject: Option<String>,
    /// Further constraints on attributes.
    pub attributes: Vec<(String, FieldConstraint<F>)>,
}

/// A text as a value, or null.
pub open spec fn text_or_null(s: Option<Seq<char>>) -> Json {
    match s {
        Some(t) => Json::String(t),
        None => Json::Null,
    }
}

/// The value of an attribute: a standard one, an extension, or a member of the
/// data.
pub open spec fn attribute(e: MessageModel, key: Seq<char>) -> Json {
    if key == "type"@ {
        Json::String(e.type_)
    } else if key == "source"@ {
        Json::String(e.source)
    } else if key == "subject"@ {
        text_or_null(e.subject)
    } else if key == "data"@ {
        match e.data {
            Some(d) => d,
            None => Json::Null,
        }
    } else if key == "id"@ {
        Json::String(e.id)
    } else {
        match lookup(e.extensions, key) {
            Some(v) => v,
            None => match e.data {
                Some(d) => member_of(d, key),
                None => Json::Null,
            },
        }
    }
}

/// Whether a constraint can have an answer on an event. Only a predicate leaves
/// more than one open.
pub open spec fn answers<F: Fn(&CloudEvent) -> bool>(
    key: Seq<char>,
    c: FieldConstraint<F>,
    e: &CloudEvent,
    answer: bool,
) -> bool {
    let v = attribute(e@.message, key);
    match c {
        FieldConstraint::Equals(expected) => answer == is_equal(v, expected@),
        FieldConstraint::MatchesRegex(p) => answer == match v {
            Json::String(s) => regex_found(p.source(), s),
            _ => false,
        },
        FieldConstraint::Expression(f) => f.ensures((e,), answer),
    }
}

/// Whether an optional text is absent or equal to another.
pub open spec fn agrees(wanted: Option<String>, found: Seq<char>) -> bool {
    match wanted {
        Some(w) => w@ == found,
        None => true,
    }
}

/// The subject of an event, or the empty text.
pub open spec fn subject_text(e: MessageModel) -> Seq<char> {
    match e.subject {
        Some(s) => s,
        None => Seq::empty(),
    }
}

/// Whether the type, the source and the subject of an event are those wanted.
pub open spec fn header_matches<F>(m: EventMatcher<F>, e: MessageModel) -> bool {
    &&& agrees(m.type_, e.type_)
    &&& agrees(m.source, e.source)
    &&& agrees(m.subject, subject_text(e))
}

/// Decides whether an optional text is absent or equal to another.
fn text_agrees(wanted: &Option<String>, found: &str) -> (r: bool)
    ensures
        r == agrees(*wanted, found@),
{
    match wanted {
        Some(w) => text_eq(w.as_str(), found),
        None => true,
    }
}

/// The value of an attribute.
fn read_attribute(event: &CloudEvent, key: &str) -> (r: Value)
    ensures
        r@ == attribute(event@.message, key@),
{
    if text_eq(key, "type") {
        Value::String(event.type_.clone())
    } else if text_eq(key, "source") {
        Value::String(event.source.clone())
    } else if text_eq(key, "subject") {
        match &event.subject {
            Some(s) => Value::String(s.clone()),
            None => Value::Null,
        }
    } else if text_eq(key, "data") {
        match &event.data {
            Some(d) => d.clone(),
            None => Value::Null,
        }
    } else if text_eq(key, "id") {
        Value::String(event.id.clone())
    } else {
        match event.extensions.get(key) {
            Some(v) => v.clone(),
            None => match &event.data {
                Some(d) => match d.get(key) {
                    Some(v) => v.clone(),
                    None => Value::Null,
                },
                None => Value::Null,
            },
        }
    }
}

/// Whether an answer of a matcher is one that it can give for an event: yes where
/// every constraint can answer yes, and no where one of them can answer no.
pub open spec fn is_answer<F: Fn(&CloudEvent) -> bool>(
    m: EventMatcher<F>,
    e: &CloudEvent,
    answer: bool,
) -> bool {
    if answer {
        header_matches(m, e@.message) && forall|i: int|
            0 <= i < m.attributes@.len() ==> answers(
                (#[trigger] m.attributes@[i]).0@,
                m.attributes@[i].1,
                e,
                true,
            )
    } else {
        !header_matches(m, e@.message) || exists|i: int|
            0 <= i < m.attributes@.len() && answers(
                (#[trigger] m.attributes@[i]).0@,
                m.attributes@[i].1,
                e,
                false,
            )
    }
}

impl<F: Fn(&CloudEvent) -> bool> EventMatcher<F> {
    /// A matcher without constraints.
    pub fn new() -> (r: Self)
        ensures
            r.type_ is None,
            r.source is None,
            r.subject is None,
            r.attributes@.len() == 0,
    {
        Self { type_: None, source: None, subject: None, attributes: Vec::new() }
    }

    /// Whether an event matches every constraint.
    pub fn matches(&self, event: &CloudEvent) -> (r: bool)
        requires
            forall|i: int|
                0 <= i < self.attributes@.len() ==> (
                #[trigger] self.attributes@[i].1 matches FieldConstraint::Expression(f)
                    ==> f.requires((event,))),
        ensures
            is_answer(*self, event, r),
    {
        let subject = match &event.subject {
            Some(s) => s.clone(),
            None => String::new(),
        };
        if !text_agrees(&self.type_, event.type_.as_str()) || !text_agrees(
            &self.source,
            event.source.as_str(),
        ) || !text_agrees(&self.subject, subject.as_str()) {
            return false;
        }
        let mut i: usize = 0;
        while i < self.attributes.len()
            invariant
                i <= self.attributes.len(),
                header_matches(*self, event@.message),
                forall|j: int|
                    0 <= j < self.attributes@.len() ==> (
                    #[trigger] self.attributes@[j].1 matches FieldConstraint::Expression(f)
                        ==> f.requires((event,))),
                forall|j: int|
                    0 <= j < i ==> answers(
                        (#[trigger] self.attributes@[j]).0@,
                        self.attributes@[j].1,
                        event,
                        true,
                    ),
            decreases self.attributes.len() - i,
        {
            let value = read_attribute(event, self.attributes[i].0.as_str());
            let ok = match &self.attributes[i].1 {
                FieldConstraint::Equals(expected) => values_equal(&value, expected),
                FieldConstraint::MatchesRegex(p) => match &value {
                    Value::String(s) => p.is_match(s.as_str()),
                    _ => false,
                },
                FieldConstraint::Expression(f) => {
                    assert(self.attributes@[i as int].1 == FieldConstraint::Expression(*f));
                    f(event)
                },
            };
            assert(answers(self.attributes@[i as int].0@, self.attributes@[i as int].1, event, ok));
            if !ok {
                return false;
            }
            i += 1;
        }
        true
    }
}

/// Compares two values, numbers by their value.
pub fn values_equal(a: &Value, b: &Value) -> (r: bool)
    ensures
        r == is_equal(a@, b@),
{
    equal(a, b)
}

// ---------------------------------------------------------------------------
// The broker
// ---------------------------------------------------------------------------

/// The events that wait for one subscriber, oldest first.
#[derive(Debug)]
pub struct InMemorySubscription {
    queue: Vec<EventMessage>,
}

/// The models of a list of messages.
pub open spec fn message_views(events: Seq<EventMessage>) -> Seq<MessageModel> {
    events.map_values(|e: EventMessage| e@)
}

impl InMemorySubscription {
    /// The events that wait.
    pub closed spec fn waiting(self) -> Seq<MessageModel> {
        message_views(self.queue@)
    }

    /// A subscription for which nothing waits.
    pub fn new() -> (r: Self)
        ensures
            r.waiting() == Seq::<MessageModel>::empty(),
    {
        let r = Self { queue: Vec::new() };
        assert(r.waiting() =~= Seq::empty());
        r
    }

    /// Adds an event.
    fn deliver(&mut self, event: &EventMessage)
        ensures
            final(self).waiting() == old(self).waiting().push(event@),
    {
        let ghost before = self.queue@;
        self.queue.push(event.clone());
        assert(self.waiting() =~= message_views(before).push(event@));
    }
}

impl EventSubscription for InMemorySubscription {
    fn recv(&mut self) -> (r: Option<EventMessage>)
        ensures
            match r {
                Some(e) => old(self).waiting().len() > 0 && e@ == old(self).waiting()[0]
                    && final(self).waiting() == old(self).waiting().skip(1),
                None => old(self).waiting().len() == 0 && final(self).waiting()
                    == old(self).waiting(),
            },
    {
        if self.queue.len() == 0 {
            return None;
        }
        let ghost before = self.queue@;
        let event = self.queue.remove(0);
        proof {
            assert(event@ == message_views(before)[0]);
            assert(self.waiting() =~= message_views(before).skip(1));
        }
        Some(event)
    }
}

/// A subscriber: the filter that it gave and what waits for it.
pub struct InMemorySubscriber<F> {
    filter: F,
    subscription: InMemorySubscription,
}

/// A broker that hands every published event to each subscriber whose filter
/// accepts it.
pub struct InMemoryBroker<F> {
    subscribers: Vec<InMemorySubscriber<F>>,
}

/// Whether answers are what filters can answer for an event.
pub open spec fn are_answers<F: Fn(&EventMessage) -> bool>(
    filters: Seq<F>,
    event: &EventMessage,
    answers: Seq<bool>,
) -> bool {
    &&& answers.len() == filters.len()
    &&& forall|i: int|
        0 <= i < filters.len() ==> (#[trigger] filters[i]).ensures((event,), answers[i])
}

impl<F: Fn(&EventMessage) -> bool> InMemoryBroker<F> {
    /// The events that wait for each subscriber.
    pub closed spec fn queues(self) -> Seq<Seq<MessageModel>> {
        self.subscribers@.map_values(|s: InMemorySubscriber<F>| s.subscription.waiting())
    }

    /// The filter of each subscriber.
    pub closed spec fn filters(self) -> Seq<F> {
        self.subscribers@.map_values(|s: InMemorySubscriber<F>| s.filter)
    }

    /// A broker without subscribers.
    pub fn new() -> (r: Self)
        ensures
            r.queues() == Seq::<Seq<MessageModel>>::empty(),
            r.filters() == Seq::<F>::empty(),
    {
        let r = Self { subscribers: Vec::new() };
        assert(r.queues() =~= Seq::empty());
        assert(r.filters() =~= Seq::empty());
        r
    }

    /// The number of subscribers.
    pub fn len(&self) -> (r: usize)
        ensures
            r == self.queues().len(),
            r == self.filters().len(),
    {
        self.subscribers.len()
    }

    /// Adds a subscriber for the events that a filter accepts, and returns its
    /// index.
    pub fn subscribe(&mut self, filter: F) -> (r: usize)
        ensures
            r == old(self).queues().len(),
            final(self).queues() == old(self).queues().push(Seq::empty()),
            final(self).filters() == old(self).filters().push(filter),
    {
        let ghost before = *self;
        let at = self.subscribers.len();
        self.subscribers.push(
            InMemorySubscriber { filter, subscription: InMemorySubscription::new() },
        );
        assert(self.queues() =~= before.queues().push(Seq::empty()));
        assert(self.filters() =~= before.filters().push(filter));
        at
    }

    /// Hands an event to the subscribers whose filter accepts it.
    pub fn publish(&mut self, event: &EventMessage) -> (r: Result<(), WorkflowError>)
        requires
            forall|i: int|
                0 <= i < old(self).filters().len() ==> (#[trigger] old(self).filters()[i]).requires(
                    (event,),
                ),
        ensures
            r is Ok,
            final(self).filters() == old(self).filters(),
            exists|answers: Seq<bool>|
                #![trigger delivered(old(self).queues(), event@, answers)]
                are_answers(old(self).filters(), event, answers) && final(self).queues()
                    == delivered(old(self).queues(), event@, answers),
    {
        let ghost before = self.queues();
        let ghost filters = self.filters();
        let ghost mut answers = Seq::<bool>::empty();
        let mut i: usize = 0;
        let n = self.subscribers.len();
        assert(self.queues() =~= delivered(before, event@, answers));
        while i < n
            invariant
                i <= n,
                n == before.len(),
                n == filters.len(),
                self.subscribers.len() == n,
                self.filters() == filters,
                forall|j: int|
                    0 <= j < filters.len() ==> (#[trigger] filters[j]).requires((event,)),
                answers.len() == i,
                forall|j: int|
                    0 <= j < i ==> (#[trigger] filters[j]).ensures((event,), answers[j]),
                self.queues() == delivered(before, event@, answers),
            decreases n - i,
        {
            let ghost now = self.queues();
            assert(now[i as int] == before[i as int]);
            let mut one = self.subscribers.remove(i);
            assert(one.filter == filters[i as int]);
            let accepted = (one.filter)(event);
            if accepted {
                one.subscription.deliver(event);
            }
            let ghost left = one.subscription.waiting();
            self.subscribers.insert(i, one);
            proof {
                let more = answers.push(accepted);
                assert(self.filters() =~= filters);
                assert(self.queues() =~= now.update(i as int, left));
                assert(self.queues() =~= delivered(before, event@, more));
                assert forall|j: int| 0 <= j < i + 1 implies (#[trigger] filters[j]).ensures(
                    (event,),
                    more[j],
                ) by {
                    if j < i {
                        assert(more[j] == answers[j]);
                    }
                }
                answers = more;
            }
            i += 1;
        }
        assert(are_answers(filters, event, answers));
        Ok(())
    }

    /// The next event that waits for a subscriber.
    pub fn recv(&mut self, subscriber: usize) -> (r: Option<EventMessage>)
        requires
            subscriber < old(self).queues().len(),
        ensures
            final(self).filters() == old(self).filters(),
            ({
                let q = old(self).queues()[subscriber as int];
                match r {
                    Some(e) => q.len() > 0 && e@ == q[0] && final(self).queues()
                        == old(self).queues().update(subscriber as int, q.skip(1)),
                    None => q.len() == 0 && final(self).queues() == old(self).queues(),
                }
            }),
    {
        let ghost before = self.queues();
        let ghost filters = self.filters();
        let mut one = self.subscribers.remove(subscriber);
        assert(one.subscription.waiting() == before[subscriber as int]);
        assert(one.filter == filters[subscriber as int]);
        let r = one.subscription.recv();
        let ghost left = one.subscription.waiting();
        self.subscribers.insert(subscriber, one);
        assert(self.filters() =~= filters);
        assert(self.queues() =~= before.update(subscriber as int, left));
        assert(before.update(subscriber as int, before[subscriber as int]) =~= before);
        r
    }
}

/// The queues after an event was handed to those subscribers that accepted it.
pub open spec fn delivered(
    queues: Seq<Seq<MessageModel>>,
    event: MessageModel,
    accepted: Seq<bool>,
) -> Seq<Seq<MessageModel>> {
    Seq::new(
        queues.len(),
        |i: int|
            if i < accepted.len() && accepted[i] {
                queues[i].push(event)
            } else {
                queues[i]
            },
    )
}

/// What waits for a subscriber is never lost: publishing only appends, and the
/// event is there for each subscriber that accepted it.
pub proof fn law_delivery(
    queues: Seq<Seq<MessageModel>>,
    event: MessageModel,
    accepted: Seq<bool>,
    i: int,
)
    requires
        0 <= i < queues.len(),
        accepted.len() == queues.len(),
    ensures
        delivered(queues, event, accepted).len() == queues.len(),
        queues[i].is_prefix_of(delivered(queues, event, accepted)[i]),
        accepted[i] ==> delivered(queues, event, accepted)[i].last() == event
            && delivered(queues, event, accepted)[i].len() == queues[i].len() + 1,
        !accepted[i] ==> delivered(queues, event, accepted)[i] == queues[i],
{
}

// ---------------------------------------------------------------------------
// What matching is for
// ---------------------------------------------------------------------------

/// A matcher that asks for a type, a source or a subject matches no event with
/// another one. An event without a subject counts as one with an empty subject.
pub proof fn law_header_is_asked_for<F: Fn(&CloudEvent) -> bool>(
    m: EventMatcher<F>,
    e: &CloudEvent,
    answer: bool,
)
    requires
        is_answer(m, e, answer),
    ensures
        m.type_ matches Some(t) ==> t@ != e.type_@ ==> !answer,
        m.source matches Some(s) ==> s@ != e.source@ ==> !answer,
        m.subject matches Some(s) ==> e.subject matches Some(found) ==> s@ != found@ ==> !answer,
        m.subject matches Some(s) ==> e.subject is None ==> s@.len() > 0 ==> !answer,
{
}

/// A matcher without further constraints matches exactly the events whose type,
/// source and subject are those that it asks for.
pub proof fn law_header_suffices<F: Fn(&CloudEvent) -> bool>(
    m: EventMatcher<F>,
    e: &CloudEvent,
    answer: bool,
)
    requires
        is_answer(m, e, answer),
        m.attributes@.len() == 0,
    ensures
        answer <==> {
            &&& m.type_ matches Some(t) ==> t@ == e.type_@
            &&& m.source matches Some(s) ==> s@ == e.source@
            &&& m.subject matches Some(s) ==> e.subject matches Some(found) ==> s@ == found@
            &&& m.subject matches Some(s) ==> e.subject is None ==> s@.len() == 0
        },
{
    if m.subject is Some && m.subject.unwrap()@.len() == 0 {
        assert(m.subject.unwrap()@ =~= Seq::empty());
    }
}

/// The value that a key stands for in an event, told by where it stands.
pub open spec fn stands_under(e: &CloudEvent, key: Seq<char>, v: Json) -> bool {
    ||| key == "type"@ && v == Json::String(e.type_@)
    ||| key == "source"@ && v == Json::String(e.source@)
    ||| key == "id"@ && v == Json::String(e.id@)
    ||| key == "subject"@ && e.subject is Some && v == Json::String(e.subject.unwrap()@)
    ||| key == "subject"@ && e.subject is None && v == Json::Null
    ||| key == "data"@ && e.data is Some && v == e.data.unwrap()@
    ||| key == "data"@ && e.data is None && v == Json::Null
    ||| is_further_key(key) && lookup(e.extensions@, key) == Some(v)
    ||| is_further_key(key) && lookup(e.extensions@, key) is None && e.data is Some
        && e.data.unwrap()@ is Object && lookup(e.data.unwrap()@->Object_0, key) == Some(v)
    ||| is_further_key(key) && lookup(e.extensions@, key) is None && v == Json::Null && (
    e.data is None || !(e.data.unwrap()@ is Object) || lookup(
        e.data.unwrap()@->Object_0,
        key,
    ) is None)
}

/// Whether a key is none of the standard attributes that a constraint can name.
pub open spec fn is_further_key(key: Seq<char>) -> bool {
    key != "type"@ && key != "source"@ && key != "id"@ && key != "subject"@ && key != "data"@
}

/// Every constraint of a matcher that matches holds: an expected value is equal to
/// the value under the key, and an expression is found in a text under the key.
pub proof fn law_constraints_hold<F: Fn(&CloudEvent) -> bool>(
    m: EventMatcher<F>,
    e: &CloudEvent,
    i: int,
    v: Json,
)
    requires
        is_answer(m, e, true),
        0 <= i < m.attributes@.len(),
        stands_under(e, m.attributes@[i].0@, v),
    ensures
        m.attributes@[i].1 matches FieldConstraint::Equals(wanted) ==> is_equal(v, wanted@),
        m.attributes@[i].1 matches FieldConstraint::MatchesRegex(p) ==> v is String
            && regex_found(p.source(), v->String_0),
        m.attributes@[i].1 matches FieldConstraint::Expression(f) ==> f.ensures((e,), true),
{
    lemma_distinct_keys();
    assert(answers(m.attributes@[i].0@, m.attributes@[i].1, e, true));
}

/// A matcher whose only constraint is on the value under one key matches exactly
/// where that constraint holds.
pub proof fn law_one_constraint<F: Fn(&CloudEvent) -> bool>(
    m: EventMatcher<F>,
    e: &CloudEvent,
    answer: bool,
    v: Json,
)
    requires
        is_answer(m, e, answer),
        m.type_ is None && m.source is None && m.subject is None,
        m.attributes@.len() == 1,
        stands_under(e, m.attributes@[0].0@, v),
    ensures
        m.attributes@[0].1 matches FieldConstraint::Equals(wanted) ==> answer == is_equal(
            v,
            wanted@,
        ),
        m.attributes@[0].1 matches FieldConstraint::MatchesRegex(p) ==> answer == (v is String
            && regex_found(p.source(), v->String_0)),
        m.attributes@[0].1 matches FieldConstraint::Expression(f) ==> f.ensures((e,), answer),
{
    lemma_distinct_keys();
    if answer {
        assert(answers(m.attributes@[0].0@, m.attributes@[0].1, e, true));
    }
}

/// The names of the standard attributes differ.
proof fn lemma_distinct_keys()
    ensures
        "type"@ != "source"@ && "type"@ != "id"@ && "type"@ != "subject"@ && "type"@ != "data"@,
        "source"@ != "id"@ && "source"@ != "subject"@ && "source"@ != "data"@,
        "id"@ != "subject"@ && "id"@ != "data"@ && "subject"@ != "data"@,
{
    reveal_strlit("type");
    reveal_strlit("source");
    reveal_strlit("id");
    reveal_strlit("subject");
    reveal_strlit("data");
    assert("type"@[0] == 't' && "data"@[0] == 'd');
    assert("type"@.len() == 4 && "source"@.len() == 6 && "id"@.len() == 2);
    assert("subject"@.len() == 7 && "data"@.len() == 4);
}

/// An event that becomes a message and an event again keeps each of its attributes.
pub proof fn law_attributes_survive(e: EventModel)
    ensures
        ({
            let (m, again) = (e.message, event_of(e.message));
            &&& again.message.id == m.id
            &&& again.message.source == m.source
            &&& again.message.type_ == m.type_
            &&& again.message.time == m.time
            &&& again.message.subject == m.subject
            &&& again.message.data == m.data
            &&& again.message.extensions == m.extensions
            &&& again.specversion == "1.0"@
        }),
{
}

} // verus!
