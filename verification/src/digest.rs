//! The digest e-mail: one message that sums up a batch of events.

use crate::email::{AttachmentFormat, EmailAttachment};
use crate::event::SorobanEvent;
use crate::text::{push_decimal, same_text};
use vstd::prelude::*;

verus! {

use crate::email::{event_list, AttachmentView};
use crate::event::{event_views, EventView};
use crate::text::{all_digits, decimal, digits_value, law_decimal_reads_back};

/// How many events of a contract the body lists one by one.
pub const LISTED_PER_CONTRACT: usize = 10;

/// The ending of a noun that counts `n` things.
pub open spec fn plural(n: nat) -> Seq<char> {
    if n == 1 {
        ""@
    } else {
        "s"@
    }
}

/// The subject of a digest of `n` events.
pub open spec fn subject_text(n: nat) -> Seq<char> {
    "Soroban Pulse: "@ + decimal(n) + " new event"@ + plural(n) + " indexed"@
}

/// The first lines of the body of a digest of `n` events.
pub open spec fn opening_text(n: nat) -> Seq<char> {
    "Soroban Pulse indexed "@ + decimal(n) + " new event"@ + plural(n) + " in the last minute.\n\n"@
}

/// The contracts of `events`, each once, in the order in which they first appear.
pub open spec fn contracts_of(events: Seq<EventView>) -> Seq<Seq<char>>
    decreases events.len(),
{
    if events.len() == 0 {
        seq![]
    } else {
        let before = contracts_of(events.drop_last());
        if before.contains(events.last().contract_id) {
            before
        } else {
            before.push(events.last().contract_id)
        }
    }
}

/// The events of the contract `contract_id` among `events`, in order.
pub open spec fn of_contract(events: Seq<EventView>, contract_id: Seq<char>) -> Seq<EventView>
    decreases events.len(),
{
    if events.len() == 0 {
        seq![]
    } else if events.last().contract_id == contract_id {
        of_contract(events.drop_last(), contract_id).push(events.last())
    } else {
        of_contract(events.drop_last(), contract_id)
    }
}

/// The line of an event in the body.
pub open spec fn event_line(event: EventView) -> Seq<char> {
    "  - Type: "@ + event.event_type + ", Ledger: "@ + decimal(event.ledger as nat) + ", TxHash: "@
        + event.tx_hash + "\n"@
}

/// The lines of `events`, in order.
pub open spec fn event_lines(events: Seq<EventView>) -> Seq<char>
    decreases events.len(),
{
    if events.len() == 0 {
        seq![]
    } else {
        event_lines(events.drop_last()) + event_line(events.last())
    }
}

/// The first of `events`, as many as the body lists one by one.
pub open spec fn listed(events: Seq<EventView>) -> Seq<EventView> {
    if events.len() > LISTED_PER_CONTRACT {
        events.take(LISTED_PER_CONTRACT as int)
    } else {
        events
    }
}

/// The line that tells how many of `n` events the body does not list.
pub open spec fn remainder_line(n: nat) -> Seq<char> {
    if n > LISTED_PER_CONTRACT {
        let left = (n - LISTED_PER_CONTRACT) as nat;
        "  ... and "@ + decimal(left) + " more event"@ + plural(left) + "\n"@
    } else {
        seq![]
    }
}

/// The section of the contract `contract_id` with the events `events`.
pub open spec fn section_text(contract_id: Seq<char>, events: Seq<EventView>) -> Seq<char> {
    "Contract: "@ + contract_id + "\n  Events: "@ + decimal(events.len()) + "\n"@ + event_lines(
        listed(events),
    ) + remainder_line(events.len()) + "\n"@
}

/// The sections of `contracts`, each with its events among `events`.
pub open spec fn sections_text(contracts: Seq<Seq<char>>, events: Seq<EventView>) -> Seq<char>
    decreases contracts.len(),
{
    if contracts.len() == 0 {
        seq![]
    } else {
        sections_text(contracts.drop_last(), events) + section_text(
            contracts.last(),
            of_contract(events, contracts.last()),
        )
    }
}

/// The summary of `events`: the opening, and a section for each contract.
pub open spec fn summary_text(events: Seq<EventView>) -> Seq<char> {
    opening_text(events.len()) + sections_text(contracts_of(events), events)
}

/// The note that `n` events are attached as `attachment`.
pub open spec fn attachment_note(n: nat, attachment: AttachmentView) -> Seq<char> {
    "\nThe full list of "@ + decimal(n) + " events is attached as "@ + attachment.filename + " ("@
        + attachment.content_type + ").\n"@
}

/// A digest e-mail.
#[derive(Debug, Clone)]
pub struct EmailDigest {
    pub subject: String,
    pub body: String,
    /// The full event list, if there are too many events for the body.
    pub attachment: Option<EmailAttachment>,
}

/// What an [`EmailDigest`] stands for.
pub struct DigestView {
    pub subject: Seq<char>,
    pub body: Seq<char>,
    pub attachment: Option<AttachmentView>,
}

impl View for EmailDigest {
    type V = DigestView;

    open spec fn view(&self) -> DigestView {
        DigestView {
            subject: self.subject@,
            body: self.body@,
            attachment: match self.attachment {
                Some(attachment) => Some(attachment@),
                None => None,
            },
        }
    }
}

/// The digest of `events`: with more than `max_events_in_body` of them the full
/// list is attached in `format`, and the body says so.
pub open spec fn digest_of(
    events: Seq<EventView>,
    max_events_in_body: nat,
    format: AttachmentFormat,
) -> DigestView {
    let attachment = event_list(events, format);
    if events.len() > max_events_in_body {
        DigestView {
            subject: subject_text(events.len()),
            body: summary_text(events) + attachment_note(events.len(), attachment),
            attachment: Some(attachment),
        }
    } else {
        DigestView {
            subject: subject_text(events.len()),
            body: summary_text(events),
            attachment: None,
        }
    }
}

/// The events of one contract.
#[derive(Debug)]
pub struct ContractGroup<'a> {
    pub contract_id: &'a str,
    pub events: Vec<&'a SorobanEvent>,
}

/// The views of the events referred to, in order.
pub open spec fn referred(events: Seq<&SorobanEvent>) -> Seq<EventView> {
    Seq::new(events.len(), |i: int| events[i]@)
}

/// Whether `groups` hold `events`, by contract, in the order in which the
/// contracts first appear.
pub open spec fn grouped(groups: Seq<ContractGroup<'_>>, events: Seq<EventView>) -> bool {
    &&& groups.len() == contracts_of(events).len()
    &&& forall|i: int|
        0 <= i < groups.len() ==> (#[trigger] groups[i]).contract_id@ == contracts_of(events)[i]
    &&& forall|i: int|
        0 <= i < groups.len() ==> referred((#[trigger] groups[i]).events@) == of_contract(
            events,
            contracts_of(events)[i],
        )
}

/// The contracts of events are all different, and are those of the events.
pub proof fn law_contracts_are_distinct(events: Seq<EventView>)
    ensures
        contracts_of(events).no_duplicates(),
        forall|i: int|
            0 <= i < events.len() ==> contracts_of(events).contains(
                (#[trigger] events[i]).contract_id,
            ),
        forall|c: Seq<char>| #[trigger]
            contracts_of(events).contains(c) ==> exists|i: int|
                0 <= i < events.len() && (#[trigger] events[i]).contract_id == c,
    decreases events.len(),
{
    if events.len() > 0 {
        let head = events.drop_last();
        let before = contracts_of(head);
        let own = events.last().contract_id;
        law_contracts_are_distinct(head);
        assert(events[events.len() - 1].contract_id == own);
        if !before.contains(own) {
            let after = before.push(own);
            assert(after[before.len() as int] == own);
            assert forall|i: int, j: int|
                0 <= i < after.len() && 0 <= j < after.len() && i != j implies after[i]
                != after[j] by {
                if i == before.len() {
                    assert(before[j] != own);
                } else if j == before.len() {
                    assert(before[i] != own);
                }
            }
        }
        assert forall|i: int| 0 <= i < events.len() implies contracts_of(events).contains(
            (#[trigger] events[i]).contract_id,
        ) by {
            if i < head.len() {
                assert(head[i] == events[i]);
                let k = choose|k: int|
                    0 <= k < before.len() && before[k] == events[i].contract_id;
                assert(contracts_of(events)[k] == before[k]);
            }
        }
        assert forall|c: Seq<char>| #[trigger] contracts_of(events).contains(c) implies exists|
            i: int,
        |
            0 <= i < events.len() && (#[trigger] events[i]).contract_id == c by {
            if c != own {
                let k = choose|k: int|
                    0 <= k < contracts_of(events).len() && contracts_of(events)[k] == c;
                assert(before[k] == c);
                assert(before.contains(c));
                let i = choose|i: int| 0 <= i < head.len() && (#[trigger] head[i]).contract_id == c;
                assert(events[i] == head[i]);
            }
        }
    }
}

/// A contract that does not occur among events has none of them.
proof fn lemma_absent_contract(events: Seq<EventView>, contract_id: Seq<char>)
    requires
        !contracts_of(events).contains(contract_id),
    ensures
        of_contract(events, contract_id) == Seq::<EventView>::empty(),
    decreases events.len(),
{
    if events.len() > 0 {
        let before = contracts_of(events.drop_last());
        let own = events.last().contract_id;
        if before.contains(contract_id) {
            let k = choose|k: int| 0 <= k < before.len() && before[k] == contract_id;
            assert(contracts_of(events)[k] == contract_id);
        }
        if !before.contains(own) {
            assert(contracts_of(events)[before.len() as int] == own);
        }
        lemma_absent_contract(events.drop_last(), contract_id);
    }
}

/// The position of the group of `contract_id`, or the number of groups.
fn find_group(groups: &Vec<ContractGroup<'_>>, contract_id: &str) -> (r: usize)
    ensures
        r <= groups.len(),
        r < groups.len() ==> groups@[r as int].contract_id@ == contract_id@,
        forall|j: int| 0 <= j < r ==> (#[trigger] groups@[j]).contract_id@ != contract_id@,
{
    let mut i: usize = 0;
    while i < groups.len()
        invariant
            i <= groups.len(),
            forall|j: int| 0 <= j < i ==> (#[trigger] groups@[j]).contract_id@ != contract_id@,
        decreases groups.len() - i,
    {
        if same_text(groups[i].contract_id, contract_id) {
            return i;
        }
        i += 1;
    }
    i
}

/// Groups events by contract, in the order in which the contracts first appear.
pub fn group_by_contract<'a>(events: &'a [SorobanEvent]) -> (r: Vec<ContractGroup<'a>>)
    ensures
        grouped(r@, event_views(events@)),
{
    let mut groups: Vec<ContractGroup<'a>> = Vec::new();
    let ghost views = event_views(events@);
    let mut i: usize = 0;
    while i < events.len()
        invariant
            i <= events.len(),
            views == event_views(events@),
            grouped(groups@, views.take(i as int)),
        decreases events.len() - i,
    {
        let event: &'a SorobanEvent = &events[i];
        let ghost done = views.take(i as int);
        let ghost next = views.take(i + 1);
        assert(next.drop_last() == done);
        assert(next.last() == event@);
        let at: usize = find_group(&groups, event.contract_id.as_str());
        let ghost before = groups@;
        let ghost contracts = contracts_of(done);
        if at == groups.len() {
            let mut own: Vec<&'a SorobanEvent> = Vec::new();
            own.push(event);
            proof {
                assert forall|j: int| 0 <= j < contracts.len() implies contracts[j]
                    != event@.contract_id by {
                    assert(before[j].contract_id@ != event@.contract_id);
                }
                lemma_absent_contract(done, event@.contract_id);
                assert(referred(own@) == Seq::<EventView>::empty().push(event@));
            }
            groups.push(ContractGroup { contract_id: event.contract_id.as_str(), events: own });
            proof {
                assert(contracts_of(next) == contracts.push(event@.contract_id));
                assert forall|j: int| 0 <= j < groups@.len() implies referred(
                    (#[trigger] groups@[j]).events@,
                ) == of_contract(next, contracts_of(next)[j]) by {
                    if j < before.len() {
                        assert(groups@[j] == before[j]);
                        assert(contracts[j] != event@.contract_id);
                    }
                }
            }
        } else {
            groups[at].events.push(event);
            proof {
                assert(contracts[at as int] == event@.contract_id);
                assert(contracts_of(next) == contracts);
                law_contracts_are_distinct(done);
                assert forall|j: int| 0 <= j < groups@.len() implies referred(
                    (#[trigger] groups@[j]).events@,
                ) == of_contract(next, contracts_of(next)[j]) by {
                    if j == at {
                        assert(groups@[j].events@ == before[j].events@.push(event));
                        assert(referred(groups@[j].events@) == referred(before[j].events@).push(
                            event@,
                        ));
                    } else {
                        assert(groups@[j] == before[j]);
                        assert(contracts[j] != contracts[at as int]);
                    }
                }
            }
        }
        i += 1;
    }
    assert(views.take(views.len() as int) == views);
    groups
}

/// Appends the ending of a noun that counts `n` things.
fn push_plural(out: &mut String, n: u64)
    ensures
        final(out)@ == old(out)@ + plural(n as nat),
{
    if n == 1 {
        out.append("");
    } else {
        out.append("s");
    }
}

/// Appends the line of an event.
fn push_event_line(out: &mut String, event: &SorobanEvent)
    ensures
        final(out)@ == old(out)@ + event_line(event@),
{
    out.append("  - Type: ");
    out.append(event.event_type.as_str());
    out.append(", Ledger: ");
    push_decimal(out, event.ledger);
    out.append(", TxHash: ");
    out.append(event.tx_hash.as_str());
    out.append("\n");
    assert(out@ == old(out)@ + event_line(event@));
}

/// Appends the section of a contract.
fn push_section(out: &mut String, group: &ContractGroup<'_>)
    ensures
        final(out)@ == old(out)@ + section_text(group.contract_id@, referred(group.events@)),
{
    let ghost start = out@;
    let ghost views = referred(group.events@);
    let count: usize = group.events.len();
    out.append("Contract: ");
    out.append(group.contract_id);
    out.append("\n  Events: ");
    push_decimal(out, count as u64);
    out.append("\n");
    let shown: usize = if count > LISTED_PER_CONTRACT {
        LISTED_PER_CONTRACT
    } else {
        count
    };
    let ghost head = out@;
    assert(head == start + ("Contract: "@ + group.contract_id@ + "\n  Events: "@ + decimal(
        count as nat,
    ) + "\n"@));
    let mut i: usize = 0;
    assert(head + event_lines(views.take(0)) == head);
    while i < shown
        invariant
            i <= shown <= group.events.len(),
            views == referred(group.events@),
            out@ == head + event_lines(views.take(i as int)),
        decreases shown - i,
    {
        push_event_line(out, group.events[i]);
        assert(views.take(i + 1).drop_last() == views.take(i as int));
        assert(views.take(i + 1).last() == group.events@[i as int]@);
        assert(out@ == head + event_lines(views.take(i + 1)));
        i += 1;
    }
    assert(views.take(shown as int) == listed(views));
    if count > LISTED_PER_CONTRACT {
        let left: u64 = (count - LISTED_PER_CONTRACT) as u64;
        out.append("  ... and ");
        push_decimal(out, left);
        out.append(" more event");
        push_plural(out, left);
        out.append("\n");
    }
    assert(out@ == head + event_lines(listed(views)) + remainder_line(count as nat));
    out.append("\n");
    assert(out@ == start + section_text(group.contract_id@, views));
}

/// The subject of a digest of `n` events.
pub fn digest_subject(n: usize) -> (r: String)
    ensures
        r@ == subject_text(n as nat),
{
    let mut out = String::from_str("Soroban Pulse: ");
    push_decimal(&mut out, n as u64);
    out.append(" new event");
    push_plural(&mut out, n as u64);
    out.append(" indexed");
    out
}

/// The summary of events: the opening, and a section for each contract.
pub fn digest_summary(events: &[SorobanEvent]) -> (r: String)
    ensures
        r@ == summary_text(event_views(events@)),
{
    let ghost views = event_views(events@);
    let ghost contracts = contracts_of(views);
    let n: u64 = events.len() as u64;
    let mut out = String::from_str("Soroban Pulse indexed ");
    push_decimal(&mut out, n);
    out.append(" new event");
    push_plural(&mut out, n);
    out.append(" in the last minute.\n\n");
    let ghost opening = opening_text(views.len());
    let groups = group_by_contract(events);
    let mut i: usize = 0;
    assert(opening + sections_text(contracts.take(0), views) == opening);
    while i < groups.len()
        invariant
            i <= groups.len(),
            contracts == contracts_of(views),
            grouped(groups@, views),
            out@ == opening + sections_text(contracts.take(i as int), views),
        decreases groups.len() - i,
    {
        push_section(&mut out, &groups[i]);
        assert(contracts.take(i + 1).drop_last() == contracts.take(i as int));
        assert(contracts.take(i + 1).last() == contracts[i as int]);
        assert(out@ == opening + sections_text(contracts.take(i + 1), views));
        i += 1;
    }
    assert(contracts.take(contracts.len() as int) == contracts);
    out
}

/// Composes the digest of a batch of events.
pub fn compose_digest(
    events: &[SorobanEvent],
    max_events_in_body: usize,
    format: AttachmentFormat,
) -> (r: EmailDigest)
    ensures
        r@ == digest_of(event_views(events@), max_events_in_body as nat, format),
{
    let subject = digest_subject(events.len());
    let mut body = digest_summary(events);
    let ghost views = event_views(events@);
    let attachment = if events.len() > max_events_in_body {
        let attachment = EmailAttachment::for_events(events, format);
        body.append("\nThe full list of ");
        push_decimal(&mut body, events.len() as u64);
        body.append(" events is attached as ");
        body.append(attachment.filename.as_str());
        body.append(" (");
        body.append(attachment.content_type.as_str());
        body.append(").\n");
        assert(body@ == summary_text(views) + attachment_note(views.len(), attachment@));
        Some(attachment)
    } else {
        None
    };
    EmailDigest { subject, body, attachment }
}

/// How many of `events` belong to one of `contracts`, counted contract by
/// contract.
pub open spec fn events_in_sections(contracts: Seq<Seq<char>>, events: Seq<EventView>) -> nat
    decreases contracts.len(),
{
    if contracts.len() == 0 {
        0
    } else {
        events_in_sections(contracts.drop_last(), events) + of_contract(
            events,
            contracts.last(),
        ).len()
    }
}

/// One more event adds one to the section of its contract.
proof fn lemma_sections_grow(contracts: Seq<Seq<char>>, events: Seq<EventView>)
    requires
        contracts.no_duplicates(),
        events.len() > 0,
    ensures
        events_in_sections(contracts, events) == events_in_sections(contracts, events.drop_last())
            + if contracts.contains(events.last().contract_id) {
            1nat
        } else {
            0nat
        },
    decreases contracts.len(),
{
    if contracts.len() > 0 {
        let head = contracts.drop_last();
        let own = events.last().contract_id;
        lemma_sections_grow(head, events);
        if head.contains(own) {
            let k = choose|k: int| 0 <= k < head.len() && head[k] == own;
            assert(contracts[k] == own);
            assert(contracts.last() != own);
        } else if contracts.last() != own {
            assert(!contracts.contains(own)) by {
                if contracts.contains(own) {
                    let k = choose|k: int| 0 <= k < contracts.len() && contracts[k] == own;
                    assert(head[k] == own);
                }
            }
        } else {
            assert(contracts[contracts.len() - 1] == own);
        }
    }
}

/// The sections of a digest account for every event exactly once: their numbers
/// of events add up to that of the batch.
pub proof fn law_sections_account_for_all(events: Seq<EventView>)
    ensures
        events_in_sections(contracts_of(events), events) == events.len(),
    decreases events.len(),
{
    if events.len() > 0 {
        let head = events.drop_last();
        let own = events.last().contract_id;
        law_sections_account_for_all(head);
        law_contracts_are_distinct(head);
        law_contracts_are_distinct(events);
        lemma_sections_grow(contracts_of(events), events);
        assert(contracts_of(events).contains(own)) by {
            assert(events[events.len() - 1].contract_id == own);
        }
        if !contracts_of(head).contains(own) {
            assert(contracts_of(events).drop_last() == contracts_of(head));
            lemma_absent_contract(head, own);
        }
    }
}

/// The section of a contract holds its events and no others, in the order of the
/// batch.
pub proof fn law_section_holds_own_events(events: Seq<EventView>, contract_id: Seq<char>)
    ensures
        of_contract(events, contract_id) == events.filter(
            |e: EventView| e.contract_id == contract_id,
        ),
    decreases events.len(),
{
    reveal(Seq::filter);
    if events.len() > 0 {
        law_section_holds_own_events(events.drop_last(), contract_id);
    }
}

/// The full list of events is attached exactly to the digests of more events than
/// the body is meant for, and the body always starts with the summary.
pub proof fn law_large_digests_are_attached(
    events: Seq<EventView>,
    max_events_in_body: nat,
    format: AttachmentFormat,
)
    ensures
        ({
            let digest = digest_of(events, max_events_in_body, format);
            &&& digest.attachment == if events.len() > max_events_in_body {
                Some(event_list(events, format))
            } else {
                None
            }
            &&& digest.body.len() >= summary_text(events).len()
            &&& digest.body.take(summary_text(events).len() as int) == summary_text(events)
        }),
{
    let digest = digest_of(events, max_events_in_body, format);
    assert(digest.body.take(summary_text(events).len() as int) == summary_text(events));
}

/// Whether `numeral` is a decimal numeral of `n`.
pub open spec fn numeral_of(numeral: Seq<char>, n: nat) -> bool {
    numeral.len() > 0 && all_digits(numeral) && digits_value(numeral) == n
}

/// Whether `numeral` is written in `text` for `n` things, between `before` and `behind`,
/// with the ending of a noun in front of `behind` unless there is one of them.
pub open spec fn counts(
    text: Seq<char>,
    before: Seq<char>,
    numeral: Seq<char>,
    n: nat,
    noun: Seq<char>,
    behind: Seq<char>,
) -> bool {
    &&& numeral_of(numeral, n)
    &&& text == before + numeral + noun + (if n == 1 {
        ""@
    } else {
        "s"@
    }) + behind
}

/// The subject of a digest tells how many events it is of.
pub proof fn law_subject_counts_events(n: nat)
    ensures
        exists|numeral: Seq<char>| #[trigger]
            counts(
                subject_text(n),
                "Soroban Pulse: "@,
                numeral,
                n,
                " new event"@,
                " indexed"@,
            ),
{
    law_decimal_reads_back(n);
    assert(counts(
        subject_text(n),
        "Soroban Pulse: "@,
        decimal(n),
        n,
        " new event"@,
        " indexed"@,
    ));
}

/// The line of an event in the body: its type, the numeral of its ledger, its hash.
pub open spec fn is_line_of(line: Seq<char>, event: EventView, numeral: Seq<char>) -> bool {
    &&& numeral_of(numeral, event.ledger as nat)
    &&& line == "  - Type: "@ + event.event_type + ", Ledger: "@ + numeral + ", TxHash: "@
        + event.tx_hash + "\n"@
}

/// Whether `rest` is the part of the section of the events `own` behind their number:
/// a line for each of the first ten of them, in order, a line that counts those that
/// are left, if any are, and an empty line.
pub open spec fn lists_events(
    rest: Seq<char>,
    own: Seq<EventView>,
    lines: Seq<Seq<char>>,
    numerals: Seq<Seq<char>>,
    left: Seq<char>,
    left_numeral: Seq<char>,
) -> bool {
    &&& rest == lines.flatten() + left + "\n"@
    &&& lines.len() == (if own.len() <= 10 {
        own.len()
    } else {
        10
    })
    &&& numerals.len() == lines.len()
    &&& forall|j: int|
        0 <= j < lines.len() ==> is_line_of(#[trigger] lines[j], own[j], numerals[j])
    &&& own.len() <= 10 ==> left.len() == 0
    &&& own.len() > 10 ==> counts(
        left,
        "  ... and "@,
        left_numeral,
        (own.len() - lines.len()) as nat,
        " more event"@,
        "\n"@,
    )
}

/// The lines of events are one line for each of them, in order.
proof fn lemma_event_lines(events: Seq<EventView>)
    ensures
        event_lines(events) == Seq::new(events.len(), |j: int| event_line(events[j])).flatten(),
    decreases events.len(),
{
    let lines = Seq::new(events.len(), |j: int| event_line(events[j]));
    if events.len() == 0 {
        assert(lines == Seq::<Seq<char>>::empty());
    } else {
        let head = events.drop_last();
        let before = Seq::new(head.len(), |j: int| event_line(head[j]));
        lemma_event_lines(head);
        assert(lines == before.push(event_line(events.last())));
        before.lemma_flatten_push(event_line(events.last()));
    }
}

/// The section of a contract names it, tells how many events it has, lists the first ten
/// of them and counts the others.
pub proof fn law_section_tells_all(contract_id: Seq<char>, own: Seq<EventView>)
    ensures
        exists|numeral: Seq<char>, rest: Seq<char>|
            {
                &&& #[trigger] numeral_of(numeral, own.len())
                &&& section_text(contract_id, own) == #[trigger] section_with(
                    contract_id,
                    numeral,
                    rest,
                )
                &&& tells_events(rest, own)
            },
{
    lemma_section(contract_id, own);
    lemma_rest_lists(own);
    assert(numeral_of(decimal(own.len()), own.len()));
    assert(section_text(contract_id, own) == section_with(
        contract_id,
        decimal(own.len()),
        section_rest(own),
    ));
}

/// A section with the number `numeral` of events and `rest` behind it.
pub open spec fn section_with(
    contract_id: Seq<char>,
    numeral: Seq<char>,
    rest: Seq<char>,
) -> Seq<char> {
    "Contract: "@ + contract_id + "\n  Events: "@ + numeral + "\n"@ + rest
}

/// The part of a section behind the number of events.
spec fn section_rest(own: Seq<EventView>) -> Seq<char> {
    event_lines(listed(own)) + remainder_line(own.len()) + "\n"@
}

/// A section is its head and its rest.
proof fn lemma_section(contract_id: Seq<char>, own: Seq<EventView>)
    ensures
        numeral_of(decimal(own.len()), own.len()),
        section_text(contract_id, own) == section_with(
            contract_id,
            decimal(own.len()),
            section_rest(own),
        ),
{
    law_decimal_reads_back(own.len());
    assert(section_text(contract_id, own) =~= section_with(
        contract_id,
        decimal(own.len()),
        section_rest(own),
    ));
}

/// The rest of a section lists the events.
proof fn lemma_rest_lists(own: Seq<EventView>)
    ensures
        tells_events(section_rest(own), own),
{
    let shown = listed(own);
    let lines = Seq::new(shown.len(), |j: int| event_line(shown[j]));
    let numerals = Seq::new(shown.len(), |j: int| decimal(shown[j].ledger as nat));
    let left = remainder_line(own.len());
    let n = (own.len() - shown.len()) as nat;
    lemma_event_lines(shown);
    law_decimal_reads_back(n);
    assert forall|j: int| 0 <= j < lines.len() implies is_line_of(
        #[trigger] lines[j],
        own[j],
        numerals[j],
    ) by {
        assert(shown[j] == own[j]);
        law_decimal_reads_back(own[j].ledger as nat);
    }
    if own.len() > 10 {
        assert(counts(left, "  ... and "@, decimal(n), n, " more event"@, "\n"@));
    }
    assert(lists_events(section_rest(own), own, lines, numerals, left, decimal(n)));
}

/// Sections one after the other, of `contracts` with the numbers `numerals` and the
/// rests `rests`.
pub open spec fn laid_out(
    contracts: Seq<Seq<char>>,
    numerals: Seq<Seq<char>>,
    rests: Seq<Seq<char>>,
) -> Seq<char>
    decreases contracts.len(),
{
    if contracts.len() == 0 {
        Seq::empty()
    } else {
        laid_out(contracts.drop_last(), numerals.drop_last(), rests.drop_last()) + section_with(
            contracts.last(),
            numerals.last(),
            rests.last(),
        )
    }
}

/// The sum of the numbers that `numerals` stand for.
pub open spec fn total(numerals: Seq<Seq<char>>) -> nat
    decreases numerals.len(),
{
    if numerals.len() == 0 {
        0
    } else {
        total(numerals.drop_last()) + digits_value(numerals.last())
    }
}

/// The number of events of a contract, as its section tells it.
spec fn told(contracts: Seq<Seq<char>>, events: Seq<EventView>) -> Seq<Seq<char>> {
    contracts.map_values(|c: Seq<char>| decimal(of_contract(events, c).len()))
}

/// What the sections tell behind the numbers of events.
spec fn rests_of(contracts: Seq<Seq<char>>, events: Seq<EventView>) -> Seq<Seq<char>> {
    contracts.map_values(|c: Seq<char>| section_rest(of_contract(events, c)))
}

/// The sections are laid out one after the other, and their numbers add up.
proof fn lemma_sections_laid_out(contracts: Seq<Seq<char>>, events: Seq<EventView>)
    ensures
        sections_text(contracts, events) == laid_out(
            contracts,
            told(contracts, events),
            rests_of(contracts, events),
        ),
        total(told(contracts, events)) == events_in_sections(contracts, events),
    decreases contracts.len(),
{
    if contracts.len() > 0 {
        let head = contracts.drop_last();
        let own = of_contract(events, contracts.last());
        lemma_sections_laid_out(head, events);
        lemma_section(contracts.last(), own);
        assert(told(contracts, events).drop_last() == told(head, events));
        assert(rests_of(contracts, events).drop_last() == rests_of(head, events));
    }
}

/// Those of `events` with the contract `contract_id`.
pub open spec fn with_contract(events: Seq<EventView>, contract_id: Seq<char>) -> Seq<EventView> {
    events.filter(|e: EventView| e.contract_id == contract_id)
}

/// Whether `rest` lists the events `own`, as a section does behind their number.
pub open spec fn tells_events(rest: Seq<char>, own: Seq<EventView>) -> bool {
    exists|
        lines: Seq<Seq<char>>,
        ledgers: Seq<Seq<char>>,
        left: Seq<char>,
        left_numeral: Seq<char>,
    | #[trigger]
        lists_events(rest, own, lines, ledgers, left, left_numeral)
}

/// Whether the body `body` opens with the number of all events, and goes on with a
/// section for each of `contracts`, which tells the number of its events by
/// `numerals[i]`.
pub open spec fn body_tells(
    body: Seq<char>,
    events: Seq<EventView>,
    opening: Seq<char>,
    all: Seq<char>,
    contracts: Seq<Seq<char>>,
    numerals: Seq<Seq<char>>,
    rests: Seq<Seq<char>>,
) -> bool {
    &&& body == opening + laid_out(contracts, numerals, rests)
    &&& counts(
        opening,
        "Soroban Pulse indexed "@,
        all,
        events.len(),
        " new event"@,
        " in the last minute.\n\n"@,
    )
    &&& numerals.len() == contracts.len()
    &&& rests.len() == contracts.len()
}

/// The body of a digest tells of every contract of the batch, once, how many of the
/// batch's events it has, also where there are more than it lists; so these numbers add
/// up to that of the batch, which the body tells first.
pub proof fn law_body_counts_every_event(events: Seq<EventView>)
    ensures
        exists|
            opening: Seq<char>,
            all: Seq<char>,
            contracts: Seq<Seq<char>>,
            numerals: Seq<Seq<char>>,
            rests: Seq<Seq<char>>,
        |
            {
                &&& #[trigger] body_tells(
                    summary_text(events),
                    events,
                    opening,
                    all,
                    contracts,
                    numerals,
                    rests,
                )
                &&& contracts.no_duplicates()
                &&& forall|i: int|
                    0 <= i < events.len() ==> contracts.contains((#[trigger] events[i]).contract_id)
                &&& forall|i: int|
                    0 <= i < contracts.len() ==> numeral_of(
                        #[trigger] numerals[i],
                        with_contract(events, contracts[i]).len(),
                    )
                &&& forall|i: int|
                    0 <= i < contracts.len() ==> tells_events(
                        #[trigger] rests[i],
                        with_contract(events, contracts[i]),
                    )
                &&& total(numerals) == events.len()
            },
{
    let contracts = contracts_of(events);
    let numerals = told(contracts, events);
    let rests = rests_of(contracts, events);
    let opening = opening_text(events.len());
    let all = decimal(events.len());
    law_decimal_reads_back(events.len());
    law_contracts_are_distinct(events);
    law_sections_account_for_all(events);
    lemma_sections_laid_out(contracts, events);
    assert(body_tells(summary_text(events), events, opening, all, contracts, numerals, rests));
    assert forall|i: int| 0 <= i < contracts.len() implies numeral_of(
        #[trigger] numerals[i],
        with_contract(events, contracts[i]).len(),
    ) by {
        law_section_holds_own_events(events, contracts[i]);
        law_decimal_reads_back(of_contract(events, contracts[i]).len());
    }
    assert forall|i: int| 0 <= i < contracts.len() implies tells_events(
        #[trigger] rests[i],
        with_contract(events, contracts[i]),
    ) by {
        law_section_holds_own_events(events, contracts[i]);
        lemma_rest_lists(of_contract(events, contracts[i]));
    }
}

/// Where the full list is attached, the body says so at its end, with the number of
/// events, the name of the file and its media type; else the body is the summary.
pub proof fn law_body_names_the_attachment(
    events: Seq<EventView>,
    max_events_in_body: nat,
    format: AttachmentFormat,
)
    ensures
        ({
            let digest = digest_of(events, max_events_in_body, format);
            &&& digest.subject == subject_text(events.len())
            &&& digest.attachment is None ==> digest.body == summary_text(events)
            &&& digest.attachment matches Some(attachment) ==> exists|numeral: Seq<char>| #[trigger]
                numeral_of(numeral, events.len()) && digest.body == summary_text(events)
                    + "\nThe full list of "@ + numeral + " events is attached as "@
                    + attachment.filename + " ("@ + attachment.content_type + ").\n"@
        }),
{
    law_decimal_reads_back(events.len());
    let digest = digest_of(events, max_events_in_body, format);
    if let Some(attachment) = digest.attachment {
        let numeral = decimal(events.len());
        assert(numeral_of(numeral, events.len()));
        assert(digest.body =~= summary_text(events) + "\nThe full list of "@ + numeral
            + " events is attached as "@ + attachment.filename + " ("@ + attachment.content_type
            + ").\n"@);
    }
}

} // verus!
