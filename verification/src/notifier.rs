//! The e-mail channel: it collects events into batches and sends a digest of each.

use crate::digest::{compose_digest, EmailDigest};
use crate::email::AttachmentFormat;
use crate::event::SorobanEvent;
use crate::message::{build_message, MessageError};
use crate::text::{from_chars, join, same_text, to_chars, to_hex};
use vstd::prelude::*;
use vstd::slice::slice_subrange;

verus! {

use crate::digest::{digest_of, DigestView};
use crate::event::{event_views, EventView};
use crate::message::{message_outcome, message_parts};
use crate::text::{hex, hex_digit, joined, law_joined_grows, law_joined_reads_back, texts};
use vstd::utf8::{encode_utf8, encode_utf8_decode_utf8};

/// How many hexadecimal digits of the digest an idempotency key keeps.
pub const KEY_DIGITS: usize = 16;

/// The settings of the e-mail channel.
#[derive(Debug, Clone)]
pub struct EmailNotifier {
    pub smtp_host: String,
    pub smtp_port: u16,
    pub smtp_user: Option<String>,
    pub from: String,
    pub to: Vec<String>,
    /// The contracts whose events are sent. Empty means all of them.
    pub contract_filter: Vec<String>,
    /// With more events than this, the full list is attached as a file.
    pub max_events_in_body: usize,
    /// The format of the attached event list.
    pub attachment_format: AttachmentFormat,
}

/// What the channel hears of.
#[derive(Debug)]
pub enum NotifierInput {
    /// The time of a batch is over.
    Tick,
    /// An event was indexed.
    Event(SorobanEvent),
    /// This many events were missed.
    Lagged(u64),
    /// There will be no more events.
    Closed,
}

/// What the channel is to do next.
#[derive(Debug)]
pub enum NotifierAction {
    /// Wait for the next input.
    Wait,
    /// Send a digest of these events, of which there is at least one.
    Send(Vec<SorobanEvent>),
    /// Report that this many events were missed.
    ReportLag(u64),
    /// Send a digest of these events, if there are any, and stop.
    Finish(Vec<SorobanEvent>),
}

/// What a [`NotifierInput`] stands for.
pub enum InputView {
    Tick,
    Event(EventView),
    Lagged(u64),
    Closed,
}

impl View for NotifierInput {
    type V = InputView;

    open spec fn view(&self) -> InputView {
        match self {
            NotifierInput::Tick => InputView::Tick,
            NotifierInput::Event(event) => InputView::Event(event@),
            NotifierInput::Lagged(n) => InputView::Lagged(*n),
            NotifierInput::Closed => InputView::Closed,
        }
    }
}

/// What a [`NotifierAction`] stands for.
pub enum ActionView {
    Wait,
    Send(Seq<EventView>),
    ReportLag(u64),
    Finish(Seq<EventView>),
}

impl View for NotifierAction {
    type V = ActionView;

    open spec fn view(&self) -> ActionView {
        match self {
            NotifierAction::Wait => ActionView::Wait,
            NotifierAction::Send(events) => ActionView::Send(event_views(events@)),
            NotifierAction::ReportLag(n) => ActionView::ReportLag(*n),
            NotifierAction::Finish(events) => ActionView::Finish(event_views(events@)),
        }
    }
}

/// Whether a channel with the contract filter `filter` sends events of the
/// contract `contract_id`.
pub open spec fn passes(filter: Seq<Seq<char>>, contract_id: Seq<char>) -> bool {
    filter.len() == 0 || filter.contains(contract_id)
}

/// The buffer after `input`, where it held `buffer` before.
pub open spec fn next_buffer(
    filter: Seq<Seq<char>>,
    buffer: Seq<EventView>,
    input: InputView,
) -> Seq<EventView> {
    match input {
        InputView::Tick => Seq::empty(),
        InputView::Event(event) => if passes(filter, event.contract_id) {
            buffer.push(event)
        } else {
            buffer
        },
        InputView::Lagged(_) => buffer,
        InputView::Closed => Seq::empty(),
    }
}

/// The action on `input`, where the buffer holds `buffer`.
pub open spec fn next_action(buffer: Seq<EventView>, input: InputView) -> ActionView {
    match input {
        InputView::Tick => if buffer.len() == 0 {
            ActionView::Wait
        } else {
            ActionView::Send(buffer)
        },
        InputView::Event(_) => ActionView::Wait,
        InputView::Lagged(n) => ActionView::ReportLag(n),
        InputView::Closed => ActionView::Finish(buffer),
    }
}

/// What `sha2` computes as the SHA-256 digest of `bytes`.
pub uninterp spec fn sha256_digest(bytes: Seq<u8>) -> Seq<u8>;

/// `sha2::Sha256::digest`: the SHA-256 digest of `bytes`, a function of them, of
/// thirty-two bytes.
#[verifier::external_body]
fn sha256(bytes: &[u8]) -> (r: Vec<u8>)
    ensures
        r@ == sha256_digest(bytes@),
        r@.len() == 32,
{
    <sha2::Sha256 as sha2::Digest>::digest(bytes).to_vec()
}

/// The identifiers of `events`, in order.
pub open spec fn ids(events: Seq<EventView>) -> Seq<Seq<char>> {
    events.map_values(|e: EventView| e.id)
}

/// The bytes of which the idempotency key of `events` is made: the UTF-8 encoding
/// of their identifiers, with commas between them.
pub open spec fn identity_bytes(events: Seq<EventView>) -> Seq<u8> {
    encode_utf8(joined(ids(events), ","@))
}

/// The idempotency key with the digest `digest`.
pub open spec fn key_text(digest: Seq<u8>) -> Seq<char> {
    "batch_"@ + hex(digest).take(KEY_DIGITS as int)
}

/// The idempotency key of `events`.
pub open spec fn batch_key_text(events: Seq<EventView>) -> Seq<char> {
    key_text(sha256_digest(identity_bytes(events)))
}

/// The number of hexadecimal digits of bytes.
proof fn lemma_hex_len(bytes: Seq<u8>)
    ensures
        hex(bytes).len() == 2 * bytes.len(),
    decreases bytes.len(),
{
    if bytes.len() > 0 {
        lemma_hex_len(bytes.drop_last());
    }
}

/// The idempotency key with the digest `digest`: a prefix, and the first
/// hexadecimal digits of the digest.
pub fn key_of_digest(digest: &[u8]) -> (r: String)
    requires
        2 * digest@.len() >= KEY_DIGITS,
    ensures
        r@ == key_text(digest@),
{
    let digits = to_chars(to_hex(digest).as_str());
    proof {
        lemma_hex_len(digest@);
    }
    let kept = from_chars(slice_subrange(digits.as_slice(), 0, KEY_DIGITS));
    let mut key = String::from_str("batch_");
    key.append(kept.as_str());
    key
}

/// The idempotency key of a batch of events, or `None` for an empty one.
pub fn batch_key(events: &[SorobanEvent]) -> (r: Option<String>)
    ensures
        match r {
            Some(key) => events@.len() > 0 && key@ == batch_key_text(event_views(events@)),
            None => events@.len() == 0,
        },
{
    if events.len() == 0 {
        return None;
    }
    let ghost views = event_views(events@);
    let mut own: Vec<String> = Vec::new();
    let mut i: usize = 0;
    while i < events.len()
        invariant
            i <= events.len(),
            own.len() == i,
            views == event_views(events@),
            forall|j: int| 0 <= j < i ==> (#[trigger] own@[j])@ == views[j].id,
        decreases events.len() - i,
    {
        own.push(events[i].id.clone());
        i += 1;
    }
    assert(texts(own@) == ids(views));
    let identity = join(&own, ",");
    let digest = sha256(identity.as_str().as_bytes());
    Some(key_of_digest(digest.as_slice()))
}

/// Whether a batch counts as sent before, where `count` e-mails with its idempotency
/// key are on record. Without a count it does not.
pub open spec fn on_record(count: Option<int>) -> bool {
    count matches Some(n) && n > 0
}

/// The view of an optional count.
pub open spec fn count_view(count: Option<i64>) -> Option<int> {
    match count {
        Some(n) => Some(n as int),
        None => None,
    }
}

/// Whether a digest of `events` is due, where `count` e-mails with their idempotency
/// key are on record: there are events, and they were not sent before.
pub open spec fn is_due(events: Seq<EventView>, count: Option<int>) -> bool {
    events.len() > 0 && !on_record(count)
}

/// Whether a batch was sent before, where `count` e-mails with its idempotency key
/// are on record.
pub fn already_sent(count: Option<i64>) -> (r: bool)
    ensures
        r == on_record(count_view(count)),
{
    match count {
        Some(n) => n > 0,
        None => false,
    }
}

/// The idempotency key to put on record for a batch of events after the attempt to
/// send its digest, which tells whether it was sent: that of the batch if it was.
pub fn key_to_record(events: &[SorobanEvent], sent: bool) -> (r: Option<String>)
    ensures
        match r {
            Some(key) => {
                &&& sent
                &&& events@.len() > 0
                &&& key@ == batch_key_text(event_views(events@))
            },
            None => !sent || events@.len() == 0,
        },
{
    if sent {
        batch_key(events)
    } else {
        None
    }
}

impl EmailNotifier {
    /// A channel with these settings.
    pub fn new(
        smtp_host: String,
        smtp_port: u16,
        smtp_user: Option<String>,
        from: String,
        to: Vec<String>,
        contract_filter: Vec<String>,
        max_events_in_body: usize,
        attachment_format: AttachmentFormat,
    ) -> (r: Self)
        ensures
            r == (EmailNotifier {
                smtp_host,
                smtp_port,
                smtp_user,
                from,
                to,
                contract_filter,
                max_events_in_body,
                attachment_format,
            }),
    {
        EmailNotifier {
            smtp_host,
            smtp_port,
            smtp_user,
            from,
            to,
            contract_filter,
            max_events_in_body,
            attachment_format,
        }
    }

    /// Whether the channel sends events of the contract of `event`.
    pub fn accepts(&self, event: &SorobanEvent) -> (r: bool)
        ensures
            r == passes(texts(self.contract_filter@), event@.contract_id),
    {
        let ghost filter = texts(self.contract_filter@);
        if self.contract_filter.len() == 0 {
            return true;
        }
        let mut i: usize = 0;
        while i < self.contract_filter.len()
            invariant
                i <= self.contract_filter.len(),
                filter == texts(self.contract_filter@),
                forall|j: int| 0 <= j < i ==> #[trigger] filter[j] != event@.contract_id,
            decreases self.contract_filter.len() - i,
        {
            if same_text(self.contract_filter[i].as_str(), event.contract_id.as_str()) {
                assert(filter[i as int] == event@.contract_id);
                return true;
            }
            i += 1;
        }
        false
    }

    /// Takes `input` in: updates the buffer of events that wait to be sent, and
    /// says what to do.
    pub fn step(&self, buffer: &mut Vec<SorobanEvent>, input: NotifierInput) -> (r: NotifierAction)
        ensures
            event_views(final(buffer)@) == next_buffer(
                texts(self.contract_filter@),
                event_views(old(buffer)@),
                input@,
            ),
            r@ == next_action(event_views(old(buffer)@), input@),
    {
        match input {
            NotifierInput::Tick => {
                if buffer.len() == 0 {
                    NotifierAction::Wait
                } else {
                    let mut batch: Vec<SorobanEvent> = Vec::new();
                    std::mem::swap(&mut batch, buffer);
                    NotifierAction::Send(batch)
                }
            },
            NotifierInput::Event(event) => {
                if self.accepts(&event) {
                    buffer.push(event);
                }
                NotifierAction::Wait
            },
            NotifierInput::Lagged(n) => NotifierAction::ReportLag(n),
            NotifierInput::Closed => {
                let mut batch: Vec<SorobanEvent> = Vec::new();
                std::mem::swap(&mut batch, buffer);
                NotifierAction::Finish(batch)
            },
        }
    }

    /// The digest to send for a batch of events, where `count` e-mails with its
    /// idempotency key are on record, if they could be counted. There is none for
    /// an empty batch and for one that was sent before.
    pub fn digest_to_send(&self, events: &[SorobanEvent], count: Option<i64>) -> (r: Option<
        EmailDigest,
    >)
        ensures
            match r {
                Some(digest) => {
                    &&& is_due(event_views(events@), count_view(count))
                    &&& digest@ == digest_of(
                        event_views(events@),
                        self.max_events_in_body as nat,
                        self.attachment_format,
                    )
                },
                None => !is_due(event_views(events@), count_view(count)),
            },
    {
        if events.len() == 0 || already_sent(count) {
            None
        } else {
            Some(compose_digest(events, self.max_events_in_body, self.attachment_format))
        }
    }

    /// Builds the message that carries `digest`, with `lettre`, which is handed the
    /// sender and all recipients.
    pub fn message(&self, digest: EmailDigest) -> (r: Result<lettre::Message, MessageError>)
        ensures
            message_outcome(
                message_parts(
                    self.from@,
                    texts(self.to@),
                    digest@.subject,
                    digest@.body,
                    digest@.attachment,
                ),
                r,
            ),
    {
        build_message(
            self.from.as_str(),
            &self.to,
            digest.subject.as_str(),
            digest.body.as_str(),
            digest.attachment,
        )
    }
}

/// The state of a channel after a number of inputs.
pub struct RunView {
    pub buffer: Seq<EventView>,
    /// The batches of which digests were to be sent, in order.
    pub sent: Seq<Seq<EventView>>,
    pub finished: bool,
}

/// The state after one more input.
pub open spec fn run_step(filter: Seq<Seq<char>>, state: RunView, input: InputView) -> RunView {
    if state.finished {
        state
    } else {
        RunView {
            buffer: next_buffer(filter, state.buffer, input),
            sent: match next_action(state.buffer, input) {
                ActionView::Send(events) => state.sent.push(events),
                ActionView::Finish(events) => if events.len() > 0 {
                    state.sent.push(events)
                } else {
                    state.sent
                },
                _ => state.sent,
            },
            finished: next_action(state.buffer, input) is Finish,
        }
    }
}

/// The state after `inputs`, from an empty buffer.
pub open spec fn run(filter: Seq<Seq<char>>, inputs: Seq<InputView>) -> RunView
    decreases inputs.len(),
{
    if inputs.len() == 0 {
        RunView { buffer: Seq::empty(), sent: Seq::empty(), finished: false }
    } else {
        run_step(filter, run(filter, inputs.drop_last()), inputs.last())
    }
}

/// The events of `inputs` that pass `filter`, in order, up to the first end of the
/// events.
pub open spec fn accepted_events(filter: Seq<Seq<char>>, inputs: Seq<InputView>) -> Seq<EventView>
    decreases inputs.len(),
{
    if inputs.len() == 0 {
        Seq::empty()
    } else {
        let before = accepted_events(filter, inputs.drop_last());
        if inputs.drop_last().contains(InputView::Closed) {
            before
        } else {
            match inputs.last() {
                InputView::Event(event) => if passes(filter, event.contract_id) {
                    before.push(event)
                } else {
                    before
                },
                _ => before,
            }
        }
    }
}

/// Every event that passes the filter is sent exactly once, in the order of
/// arrival: the batches sent and the buffer hold them one after the other, no batch
/// is empty, and once the events have ended nothing waits any more.
pub proof fn law_every_event_is_sent_once(filter: Seq<Seq<char>>, inputs: Seq<InputView>)
    ensures
        run(filter, inputs).sent.flatten() + run(filter, inputs).buffer == accepted_events(
            filter,
            inputs,
        ),
        forall|i: int|
            0 <= i < run(filter, inputs).sent.len() ==> (#[trigger] run(
                filter,
                inputs,
            ).sent[i]).len() > 0,
        run(filter, inputs).finished == inputs.contains(InputView::Closed),
        run(filter, inputs).finished ==> run(filter, inputs).buffer.len() == 0,
    decreases inputs.len(),
{
    if inputs.len() == 0 {
        assert(run(filter, inputs).sent.flatten() + run(filter, inputs).buffer == accepted_events(
            filter,
            inputs,
        ));
    } else {
        let head = inputs.drop_last();
        let last = inputs.last();
        let before = run(filter, head);
        law_every_event_is_sent_once(filter, head);
        assert(inputs == head.push(last));
        if before.finished {
            let k = choose|k: int| 0 <= k < head.len() && head[k] == InputView::Closed;
            assert(inputs[k] == InputView::Closed);
        } else {
            assert(inputs.contains(InputView::Closed) == (last == InputView::Closed)) by {
                if last == InputView::Closed {
                    assert(inputs[inputs.len() - 1] == InputView::Closed);
                } else if inputs.contains(InputView::Closed) {
                    let k = choose|k: int| 0 <= k < inputs.len() && inputs[k] == InputView::Closed;
                    assert(head[k] == InputView::Closed);
                }
            }
            before.sent.lemma_flatten_push(before.buffer);
            let after = run(filter, inputs);
            assert(after.sent.flatten() + after.buffer == accepted_events(filter, inputs));
        }
    }
}

/// One attempt to send the digest of a batch.
pub struct Attempt {
    pub events: Seq<EventView>,
    /// Whether the e-mails with its idempotency key could be counted.
    pub counted: bool,
    /// Whether its digest, if it is due, gets sent.
    pub delivered: bool,
}

/// How many times `key` occurs among `keys`.
pub open spec fn occurrences(keys: Seq<Seq<char>>, key: Seq<char>) -> nat
    decreases keys.len(),
{
    if keys.len() == 0 {
        0
    } else {
        occurrences(keys.drop_last(), key) + if keys.last() == key {
            1nat
        } else {
            0nat
        }
    }
}

/// The count that an attempt finds, where the keys on record are `keys`.
pub open spec fn count_found(keys: Seq<Seq<char>>, attempt: Attempt) -> Option<int> {
    if attempt.counted {
        Some(occurrences(keys, batch_key_text(attempt.events)) as int)
    } else {
        None
    }
}

/// Whether an e-mail is sent in an attempt, where the keys on record are `keys`.
pub open spec fn sends(keys: Seq<Seq<char>>, attempt: Attempt) -> bool {
    is_due(attempt.events, count_found(keys, attempt)) && attempt.delivered
}

/// The keys on record after `attempts`, each of which puts on record what
/// [`key_to_record`] says.
pub open spec fn keys_after(attempts: Seq<Attempt>) -> Seq<Seq<char>>
    decreases attempts.len(),
{
    if attempts.len() == 0 {
        Seq::empty()
    } else {
        let keys = keys_after(attempts.drop_last());
        if sends(keys, attempts.last()) {
            keys.push(batch_key_text(attempts.last().events))
        } else {
            keys
        }
    }
}

/// A key that was put on record is found there ever after.
proof fn lemma_key_stays(attempts: Seq<Attempt>, i: int)
    requires
        0 <= i < attempts.len(),
        sends(keys_after(attempts.take(i)), attempts[i]),
    ensures
        occurrences(keys_after(attempts), batch_key_text(attempts[i].events)) > 0,
    decreases attempts.len(),
{
    let head = attempts.drop_last();
    let keys = keys_after(head);
    let key = batch_key_text(attempts[i].events);
    if i == attempts.len() - 1 {
        assert(attempts.take(i) == head);
    } else {
        assert(attempts.take(i) == head.take(i));
        lemma_key_stays(head, i);
    }
    if sends(keys, attempts.last()) {
        assert(keys_after(attempts).drop_last() == keys);
    }
}

/// A batch is sent at most once: after an attempt that sent it, however many attempts
/// lie between, no digest is due for the same batch, nor for another one with the
/// same identifiers, as long as the e-mails on record can be counted.
pub proof fn law_batch_is_sent_at_most_once(attempts: Seq<Attempt>, i: int, again: Attempt)
    requires
        0 <= i < attempts.len(),
        sends(keys_after(attempts.take(i)), attempts[i]),
        ids(again.events) == ids(attempts[i].events),
        again.counted,
    ensures
        !is_due(again.events, count_found(keys_after(attempts), again)),
        !sends(keys_after(attempts), again),
{
    lemma_key_stays(attempts, i);
    law_key_follows_identifiers(again.events, attempts[i].events);
}

/// Where the e-mails on record can always be counted, no two e-mails with the same
/// idempotency key are ever sent.
pub proof fn law_keys_are_sent_once(attempts: Seq<Attempt>, i: int, j: int)
    requires
        0 <= i < j < attempts.len(),
        attempts[j].counted,
        sends(keys_after(attempts.take(i)), attempts[i]),
        sends(keys_after(attempts.take(j)), attempts[j]),
    ensures
        batch_key_text(attempts[i].events) != batch_key_text(attempts[j].events),
{
    let before = attempts.take(j);
    assert(before.take(i) == attempts.take(i));
    assert(before[i] == attempts[i]);
    lemma_key_stays(before, i);
}

/// Batches of events with the same identifiers, in the same order, have the same
/// idempotency key, whatever else the events hold.
pub proof fn law_key_follows_identifiers(a: Seq<EventView>, b: Seq<EventView>)
    requires
        ids(a) == ids(b),
    ensures
        batch_key_text(a) == batch_key_text(b),
{
}

/// An idempotency key is a fixed prefix and [`KEY_DIGITS`] hexadecimal digits, the
/// numerals of the first bytes of the digest.
pub proof fn law_key_shape(digest: Seq<u8>)
    requires
        2 * digest.len() >= KEY_DIGITS,
    ensures
        KEY_DIGITS == 16,
        key_text(digest).len() == "batch_"@.len() + KEY_DIGITS,
        key_text(digest).take("batch_"@.len() as int) == "batch_"@,
        forall|i: int|
            0 <= i < KEY_DIGITS ==> #[trigger] key_text(digest)["batch_"@.len() + i] == hex_digit(
                if i % 2 == 0 {
                    (digest[i / 2] / 16) as nat
                } else {
                    (digest[i / 2] % 16) as nat
                },
            ),
{
    lemma_hex_len(digest);
    assert(key_text(digest).take("batch_"@.len() as int) == "batch_"@);
    assert forall|i: int| 0 <= i < KEY_DIGITS implies #[trigger] key_text(
        digest,
    )["batch_"@.len() + i] == hex_digit(
        if i % 2 == 0 {
            (digest[i / 2] / 16) as nat
        } else {
            (digest[i / 2] % 16) as nat
        },
    ) by {
        lemma_hex_at(digest, i);
    }
}

/// The digit at position `i` of the hexadecimal numerals of bytes.
proof fn lemma_hex_at(bytes: Seq<u8>, i: int)
    requires
        0 <= i < 2 * bytes.len(),
    ensures
        hex(bytes)[i] == hex_digit(
            if i % 2 == 0 {
                (bytes[i / 2] / 16) as nat
            } else {
                (bytes[i / 2] % 16) as nat
            },
        ),
    decreases bytes.len(),
{
    let head = bytes.drop_last();
    lemma_hex_len(head);
    if i < 2 * head.len() {
        lemma_hex_at(head, i);
    }
}

/// Without a contract filter, a channel sends the events of every contract.
pub proof fn law_empty_filter_passes_all(contract_id: Seq<char>)
    ensures
        passes(Seq::empty(), contract_id),
{
}

/// A contract filter passes exactly the contracts that it lists.
pub proof fn law_filter_passes_what_it_lists(filter: Seq<Seq<char>>, contract_id: Seq<char>)
    requires
        filter.len() > 0,
    ensures
        passes(filter, contract_id) <==> exists|i: int|
            0 <= i < filter.len() && #[trigger] filter[i] == contract_id,
{
}

/// After a tick nothing waits: whatever came before, the events accepted so far are all
/// in the batches sent.
pub proof fn law_tick_leaves_nothing_waiting(filter: Seq<Seq<char>>, inputs: Seq<InputView>)
    requires
        inputs.len() > 0,
        inputs.last() == InputView::Tick,
    ensures
        run(filter, inputs).buffer.len() == 0,
        run(filter, inputs).sent.flatten() == accepted_events(filter, inputs),
{
    law_every_event_is_sent_once(filter, inputs);
    law_every_event_is_sent_once(filter, inputs.drop_last());
    let state = run(filter, inputs);
    assert(state.sent.flatten() + state.buffer == state.sent.flatten());
}

/// What waits at a tick is sent as one batch, in the order of arrival, and so it is at
/// the end of the events.
pub proof fn law_batch_is_what_waited(
    filter: Seq<Seq<char>>,
    buffer: Seq<EventView>,
    input: InputView,
)
    requires
        input == InputView::Tick || input == InputView::Closed,
    ensures
        next_buffer(filter, buffer, input).len() == 0,
        buffer.len() > 0 ==> next_action(buffer, input) == if input == InputView::Tick {
            ActionView::Send(buffer)
        } else {
            ActionView::Finish(buffer)
        },
        buffer.len() == 0 ==> next_action(buffer, input) == if input == InputView::Tick {
            ActionView::Wait
        } else {
            ActionView::Finish(Seq::empty())
        },
{
    if buffer.len() == 0 {
        assert(buffer == Seq::<EventView>::empty());
    }
}

/// Between ticks nothing is sent: an event waits behind those that wait if the filter
/// lists its contract or is empty, and changes nothing else; a lag is reported and
/// loses nothing that waits.
pub proof fn law_nothing_is_sent_between_ticks(
    filter: Seq<Seq<char>>,
    buffer: Seq<EventView>,
    event: EventView,
    n: u64,
)
    ensures
        next_action(buffer, InputView::Event(event)) == ActionView::Wait,
        next_buffer(filter, buffer, InputView::Event(event)) == if filter.len() == 0
            || filter.contains(event.contract_id) {
            buffer + seq![event]
        } else {
            buffer
        },
        next_action(buffer, InputView::Lagged(n)) == ActionView::ReportLag(n),
        next_buffer(filter, buffer, InputView::Lagged(n)) == buffer,
{
    assert(buffer.push(event) == buffer + seq![event]);
}

/// How many of `inputs` are ticks or ends of the events.
pub open spec fn deadlines(inputs: Seq<InputView>) -> nat
    decreases inputs.len(),
{
    if inputs.len() == 0 {
        0
    } else {
        deadlines(inputs.drop_last()) + if inputs.last() == InputView::Tick || inputs.last()
            == InputView::Closed {
            1nat
        } else {
            0nat
        }
    }
}

/// There is at most one e-mail for each tick or end of the events: the events of a
/// minute go out together.
pub proof fn law_one_batch_for_each_tick(filter: Seq<Seq<char>>, inputs: Seq<InputView>)
    ensures
        run(filter, inputs).sent.len() <= deadlines(inputs),
    decreases inputs.len(),
{
    if inputs.len() > 0 {
        law_one_batch_for_each_tick(filter, inputs.drop_last());
    }
}

/// The accepted events of one input.
pub proof fn law_accepted_of_one_input(filter: Seq<Seq<char>>, input: InputView)
    ensures
        accepted_events(filter, seq![input]) == match input {
            InputView::Event(event) => if filter.len() == 0 || filter.contains(
                event.contract_id,
            ) {
                seq![event]
            } else {
                Seq::empty()
            },
            _ => Seq::empty(),
        },
{
    reveal_with_fuel(accepted_events, 2);
    assert(seq![input].drop_last() == Seq::<InputView>::empty());
}

/// The accepted events of inputs, one after the other, are those of the first and then
/// those of the others, as long as the events have not ended.
pub proof fn law_accepted_events_concatenate(
    filter: Seq<Seq<char>>,
    a: Seq<InputView>,
    b: Seq<InputView>,
)
    ensures
        !a.contains(InputView::Closed) ==> accepted_events(filter, a + b) == accepted_events(
            filter,
            a,
        ) + accepted_events(filter, b),
        a.contains(InputView::Closed) ==> accepted_events(filter, a + b) == accepted_events(
            filter,
            a,
        ),
    decreases b.len(),
{
    if b.len() == 0 {
        assert(a + b == a);
        assert(accepted_events(filter, a) + accepted_events(filter, b) == accepted_events(
            filter,
            a,
        ));
    } else {
        let rest = b.drop_last();
        law_accepted_events_concatenate(filter, a, rest);
        assert((a + b).drop_last() == a + rest);
        assert((a + b).last() == b.last());
        assert((a + rest).contains(InputView::Closed) == (a.contains(InputView::Closed)
            || rest.contains(InputView::Closed))) by {
            if a.contains(InputView::Closed) {
                let k = choose|k: int| 0 <= k < a.len() && a[k] == InputView::Closed;
                assert((a + rest)[k] == InputView::Closed);
            }
            if rest.contains(InputView::Closed) {
                let k = choose|k: int| 0 <= k < rest.len() && rest[k] == InputView::Closed;
                assert((a + rest)[a.len() + k] == InputView::Closed);
            }
            if (a + rest).contains(InputView::Closed) {
                let k = choose|k: int|
                    0 <= k < (a + rest).len() && (a + rest)[k] == InputView::Closed;
                if k < a.len() {
                    assert(a[k] == InputView::Closed);
                } else {
                    assert(rest[k - a.len()] == InputView::Closed);
                }
            }
        }
        if !a.contains(InputView::Closed) {
            assert(accepted_events(filter, a + b) =~= accepted_events(filter, a)
                + accepted_events(filter, b));
        }
    }
}

/// Batches of events whose identifiers hold no comma are told apart by what their
/// idempotency keys are made of: only the same identifiers in the same order give the
/// same bytes.
pub proof fn law_identity_tells_batches_apart(a: Seq<EventView>, b: Seq<EventView>)
    requires
        a.len() > 0,
        b.len() > 0,
        forall|i: int| 0 <= i < a.len() ==> !(#[trigger] a[i]).id.contains(','),
        forall|i: int| 0 <= i < b.len() ==> !(#[trigger] b[i]).id.contains(','),
        identity_bytes(a) == identity_bytes(b),
    ensures
        a.len() == b.len(),
        forall|i: int| 0 <= i < a.len() ==> (#[trigger] a[i]).id == b[i].id,
{
    let x = ids(a);
    let y = ids(b);
    reveal_strlit(",");
    assert(","@ =~= seq![',']);
    encode_utf8_decode_utf8(joined(x, ","@));
    encode_utf8_decode_utf8(joined(y, ","@));
    assert forall|i: int| 0 <= i < x.len() implies !(#[trigger] x[i]).contains(',') by {
        assert(!a[i].id.contains(','));
    }
    assert forall|i: int| 0 <= i < y.len() implies !(#[trigger] y[i]).contains(',') by {
        assert(!b[i].id.contains(','));
    }
    law_joined_reads_back(x, y, ',');
    assert forall|i: int| 0 <= i < a.len() implies (#[trigger] a[i]).id == b[i].id by {
        assert(x[i] == a[i].id);
        assert(y[i] == b[i].id);
    }
}

/// What the idempotency key of a batch is made of: the UTF-8 encoding of the identifier
/// of a single event, and with each further event a comma and its identifier.
pub proof fn law_identity_lists_identifiers(events: Seq<EventView>, event: EventView)
    ensures
        identity_bytes(seq![event]) == encode_utf8(event.id),
        events.len() > 0 ==> identity_bytes(events.push(event)) == encode_utf8(
            joined(ids(events), ","@) + ","@ + event.id,
        ),
        batch_key_text(events) == key_text(sha256_digest(identity_bytes(events))),
{
    assert(ids(seq![event]) == seq![event.id]);
    assert(ids(events.push(event)) == ids(events).push(event.id));
    law_joined_grows(ids(events), event.id, ","@);
}

/// A batch of events is due as long as nothing with its idempotency key was sent, also
/// after attempts that failed.
pub proof fn law_unsent_batch_is_due(attempts: Seq<Attempt>, again: Attempt)
    requires
        again.events.len() > 0,
        forall|i: int|
            0 <= i < attempts.len() ==> !(#[trigger] attempts[i]).delivered || batch_key_text(
                attempts[i].events,
            ) != batch_key_text(again.events),
    ensures
        is_due(again.events, count_found(keys_after(attempts), again)),
    decreases attempts.len(),
{
    lemma_key_absent(attempts, batch_key_text(again.events));
}

/// A key is on record only where something was sent with it.
proof fn lemma_key_absent(attempts: Seq<Attempt>, key: Seq<char>)
    requires
        forall|i: int|
            0 <= i < attempts.len() ==> !(#[trigger] attempts[i]).delivered || batch_key_text(
                attempts[i].events,
            ) != key,
    ensures
        occurrences(keys_after(attempts), key) == 0,
    decreases attempts.len(),
{
    if attempts.len() > 0 {
        let head = attempts.drop_last();
        let keys = keys_after(head);
        assert forall|i: int| 0 <= i < head.len() implies !(#[trigger] head[i]).delivered
            || batch_key_text(head[i].events) != key by {
            assert(head[i] == attempts[i]);
        }
        lemma_key_absent(head, key);
        if sends(keys, attempts.last()) {
            assert(attempts[attempts.len() - 1].delivered);
            assert(keys_after(attempts).drop_last() == keys);
        }
    }
}

/// Nothing is ever due for an empty batch, nor for one that is on record, and everything
/// else is.
pub proof fn law_what_is_due(events: Seq<EventView>, n: int)
    ensures
        is_due(events, Some(n)) <==> events.len() > 0 && n <= 0,
        is_due(events, None) <==> events.len() > 0,
{
}

} // verus!
