//! Attachments of digest e-mails: the event list as a CSV or JSON document.

use crate::event::SorobanEvent;
use crate::json::{to_pretty, JsonValue};
pub use crate::notifier::EmailNotifier;
use crate::text::{from_chars, push_decimal, same_chars, to_ascii_lower, to_chars, trim};
use vstd::prelude::*;

verus! {

use crate::event::{event_field, event_tree, event_views, law_event_reads_back, EventView};
use crate::json::{
    bool_text, lemma_tree_of_parts, pretty_text, selected, trees, written, JsonTree,
};
use crate::path::SegmentView;
use crate::text::{
    all_digits, ascii_lower, decimal, digits_value, law_ascii_lower_keeps_letters,
    law_trimmed_ignores_padding, trimmed, white_space,
};

/// File format for the digest event-list attachment.
#[derive(Debug, Clone, Copy, PartialEq, Eq, Structural)]
pub enum AttachmentFormat {
    /// Comma-separated values (default).
    Csv,
    /// JSON array of events.
    Json,
}

/// The format that a configured value names.
pub open spec fn named_format(value: Seq<char>) -> AttachmentFormat {
    if ascii_lower(trimmed(value)) == "json"@ {
        AttachmentFormat::Json
    } else {
        AttachmentFormat::Csv
    }
}

impl AttachmentFormat {
    /// The name of the attached file.
    pub open spec fn filename_text(self) -> Seq<char> {
        match self {
            AttachmentFormat::Csv => "events.csv"@,
            AttachmentFormat::Json => "events.json"@,
        }
    }

    /// The media type of the attached file.
    pub open spec fn content_type_text(self) -> Seq<char> {
        match self {
            AttachmentFormat::Csv => "text/csv"@,
            AttachmentFormat::Json => "application/json"@,
        }
    }

    /// Parses a configured format: `json` in any ASCII case, with or without white
    /// space around it. Anything else is CSV.
    pub fn parse(value: &str) -> (r: Self)
        ensures
            r == named_format(value@),
    {
        let chars: Vec<char> = to_chars(value);
        let lower: Vec<char> = to_ascii_lower(trim(chars.as_slice()));
        let json: Vec<char> = to_chars("json");
        if same_chars(lower.as_slice(), json.as_slice()) {
            AttachmentFormat::Json
        } else {
            AttachmentFormat::Csv
        }
    }

    /// The name of the attached file.
    pub fn filename(self) -> (r: &'static str)
        ensures
            r@ == self.filename_text(),
    {
        match self {
            AttachmentFormat::Csv => "events.csv",
            AttachmentFormat::Json => "events.json",
        }
    }

    /// The media type of the attached file.
    pub fn content_type(self) -> (r: &'static str)
        ensures
            r@ == self.content_type_text(),
    {
        match self {
            AttachmentFormat::Csv => "text/csv",
            AttachmentFormat::Json => "application/json",
        }
    }
}

/// Whether `c` cannot stand in a CSV field without quotation marks.
pub open spec fn needs_quotes(c: char) -> bool {
    c == '"' || c == ',' || c == '\n' || c == '\r'
}

/// `s` with each `"` doubled.
pub open spec fn doubled_quotes(s: Seq<char>) -> Seq<char>
    decreases s.len(),
{
    if s.len() == 0 {
        seq![]
    } else if s.last() == '"' {
        doubled_quotes(s.drop_last()) + seq!['"', '"']
    } else {
        doubled_quotes(s.drop_last()).push(s.last())
    }
}

/// `field` as it stands in a CSV document (RFC 4180): as it is, or in quotation
/// marks, with its own quotation marks doubled.
pub open spec fn csv_field(field: Seq<char>) -> Seq<char> {
    if exists|i: int| 0 <= i < field.len() && needs_quotes(#[trigger] field[i]) {
        seq!['"'] + doubled_quotes(field) + seq!['"']
    } else {
        field
    }
}

/// The first line of the CSV document.
pub open spec fn csv_header() -> Seq<char> {
    "contract_id,event_type,ledger,ledger_closed_at,tx_hash,in_successful_call\n"@
}

/// The line of an event in the CSV document.
pub open spec fn csv_row(event: EventView) -> Seq<char> {
    csv_field(event.contract_id) + ","@ + csv_field(event.event_type) + ","@ + decimal(
        event.ledger as nat,
    ) + ","@ + csv_field(event.ledger_closed_at) + ","@ + csv_field(event.tx_hash) + ","@
        + bool_text(event.in_successful_call) + "\n"@
}

/// The lines of `events`, in order.
pub open spec fn csv_rows(events: Seq<EventView>) -> Seq<char>
    decreases events.len(),
{
    if events.len() == 0 {
        seq![]
    } else {
        csv_rows(events.drop_last()) + csv_row(events.last())
    }
}

/// The CSV document of `events`.
pub open spec fn csv_document(events: Seq<EventView>) -> Seq<char> {
    csv_header() + csv_rows(events)
}

/// The JSON array of `events`.
pub open spec fn events_tree(events: Seq<EventView>) -> JsonTree {
    JsonTree::Array(Seq::new(events.len(), |i: int| event_tree(events[i])))
}

/// `text`, or an empty array in its absence.
pub open spec fn text_or_empty_array(text: Option<Seq<char>>) -> Seq<char> {
    match text {
        Some(text) => text,
        None => "[]"@,
    }
}

/// The JSON document of `events`.
pub open spec fn json_document(events: Seq<EventView>) -> Seq<char> {
    pretty_text(written(events_tree(events)))
}

/// Escapes a single field for inclusion in a CSV document (RFC 4180).
pub fn csv_escape(field: &str) -> (r: String)
    ensures
        r@ == csv_field(field@),
{
    let chars: Vec<char> = to_chars(field);
    let mut quoted: bool = false;
    let mut out = String::new();
    out.push('"');
    let mut i: usize = 0;
    while i < chars.len()
        invariant
            i <= chars.len(),
            chars@ == field@,
            quoted == exists|j: int| 0 <= j < i && needs_quotes(#[trigger] chars@[j]),
            out@ == seq!['"'] + doubled_quotes(chars@.take(i as int)),
        decreases chars.len() - i,
    {
        let c: char = chars[i];
        assert(chars@.take(i + 1).drop_last() == chars@.take(i as int));
        if c == '"' {
            out.push('"');
        }
        out.push(c);
        if c == '"' || c == ',' || c == '\n' || c == '\r' {
            assert(needs_quotes(chars@[i as int]));
            quoted = true;
        }
        i += 1;
    }
    assert(chars@.take(chars@.len() as int) == chars@);
    if quoted {
        out.push('"');
        out
    } else {
        from_chars(chars.as_slice())
    }
}

/// Appends the line of `event` to a CSV document.
fn push_csv_row(out: &mut String, event: &SorobanEvent)
    ensures
        final(out)@ == old(out)@ + csv_row(event@),
{
    out.append(csv_escape(event.contract_id.as_str()).as_str());
    out.append(",");
    out.append(csv_escape(event.event_type.as_str()).as_str());
    out.append(",");
    push_decimal(out, event.ledger);
    out.append(",");
    out.append(csv_escape(event.ledger_closed_at.as_str()).as_str());
    out.append(",");
    out.append(csv_escape(event.tx_hash.as_str()).as_str());
    out.append(",");
    if event.in_successful_call {
        out.append("true");
    } else {
        out.append("false");
    }
    out.append("\n");
    assert(out@ == old(out)@ + csv_row(event@));
}

/// Renders the full event list as a CSV document.
pub fn generate_csv(events: &[SorobanEvent]) -> (r: String)
    ensures
        r@ == csv_document(event_views(events@)),
{
    let mut out = String::from_str(
        "contract_id,event_type,ledger,ledger_closed_at,tx_hash,in_successful_call\n",
    );
    let ghost views = event_views(events@);
    let mut i: usize = 0;
    assert(csv_header() + csv_rows(views.take(0)) == csv_header());
    while i < events.len()
        invariant
            i <= events.len(),
            views == event_views(events@),
            out@ == csv_header() + csv_rows(views.take(i as int)),
        decreases events.len() - i,
    {
        push_csv_row(&mut out, &events[i]);
        proof {
            assert(views.take(i + 1).drop_last() == views.take(i as int));
            assert(views.take(i + 1).last() == events@[i as int]@);
            assert(out@ == csv_header() + csv_rows(views.take(i + 1)));
        }
        i += 1;
    }
    assert(views.take(views.len() as int) == views);
    out
}

/// The JSON array of `events`.
pub fn events_to_json(events: &[SorobanEvent]) -> (r: JsonValue)
    ensures
        r@ == events_tree(event_views(events@)),
{
    let mut items: Vec<JsonValue> = Vec::new();
    let mut i: usize = 0;
    while i < events.len()
        invariant
            i <= events.len(),
            items.len() == i,
            forall|j: int| 0 <= j < i ==> (#[trigger] items@[j])@ == event_tree(events@[j]@),
        decreases events.len() - i,
    {
        items.push(events[i].to_json());
        i += 1;
    }
    let array = JsonValue::Array(items);
    proof {
        lemma_tree_of_parts(array);
        assert(trees(items@) =~= events_tree(event_views(events@))->Array_0);
    }
    array
}

/// `text`, or the text of an empty array in its absence.
pub fn or_empty_array(text: Option<String>) -> (r: String)
    ensures
        r@ == text_or_empty_array(
            match text {
                Some(text) => Some(text@),
                None => None,
            },
        ),
{
    match text {
        Some(text) => text,
        None => String::from_str("[]"),
    }
}

/// Renders the full event list as a pretty-printed JSON array.
pub fn generate_json(events: &[SorobanEvent]) -> (r: String)
    ensures
        r@ == json_document(event_views(events@)),
{
    or_empty_array(to_pretty(&events_to_json(events)))
}

/// A generated file attachment for digest e-mails.
#[derive(Debug, Clone)]
pub struct EmailAttachment {
    pub filename: String,
    pub content: String,
    pub content_type: String,
}

/// What an [`EmailAttachment`] stands for.
pub struct AttachmentView {
    pub filename: Seq<char>,
    pub content: Seq<char>,
    pub content_type: Seq<char>,
}

impl View for EmailAttachment {
    type V = AttachmentView;

    open spec fn view(&self) -> AttachmentView {
        AttachmentView {
            filename: self.filename@,
            content: self.content@,
            content_type: self.content_type@,
        }
    }
}

/// The attachment that lists `events` in `format`.
pub open spec fn event_list(events: Seq<EventView>, format: AttachmentFormat) -> AttachmentView {
    AttachmentView {
        filename: format.filename_text(),
        content: match format {
            AttachmentFormat::Csv => csv_document(events),
            AttachmentFormat::Json => json_document(events),
        },
        content_type: format.content_type_text(),
    }
}

impl EmailAttachment {
    /// Builds an attachment containing the full event list in `format`.
    pub fn for_events(events: &[SorobanEvent], format: AttachmentFormat) -> (r: Self)
        ensures
            r@ == event_list(event_views(events@), format),
    {
        let content = match format {
            AttachmentFormat::Csv => generate_csv(events),
            AttachmentFormat::Json => generate_json(events),
        };
        EmailAttachment {
            filename: String::from_str(format.filename()),
            content,
            content_type: String::from_str(format.content_type()),
        }
    }
}

/// The JSON array of events holds one object for each of them, in order: the object at
/// a position has the fields of the event at that position, and there is none beyond.
pub proof fn law_json_list_reads_back(events: Seq<EventView>, i: nat)
    ensures
        events_tree(events) matches JsonTree::Array(items) && items.len() == events.len(),
        i < events.len() ==> {
            &&& selected(events_tree(events), SegmentView::Index(i)) matches Some(tree)
            &&& event_field(tree, "id"@) == Some(JsonTree::String(events[i as int].id))
            &&& event_field(tree, "contractId"@) == Some(
                JsonTree::String(events[i as int].contract_id),
            )
            &&& event_field(tree, "eventType"@) == Some(
                JsonTree::String(events[i as int].event_type),
            )
            &&& event_field(tree, "txHash"@) == Some(JsonTree::String(events[i as int].tx_hash))
            &&& event_field(tree, "ledger"@) matches Some(JsonTree::Number(numeral))
                && all_digits(numeral) && digits_value(numeral) == events[i as int].ledger
            &&& event_field(tree, "ledgerClosedAt"@) == Some(
                JsonTree::String(events[i as int].ledger_closed_at),
            )
            &&& event_field(tree, "ledgerHash"@) == Some(
                match events[i as int].ledger_hash {
                    Some(hash) => JsonTree::String(hash),
                    None => JsonTree::Null,
                },
            )
            &&& event_field(tree, "inSuccessfulCall"@) == Some(
                JsonTree::Bool(events[i as int].in_successful_call),
            )
            &&& event_field(tree, "value"@) == Some(events[i as int].value)
            &&& event_field(tree, "topic"@) == Some(
                match events[i as int].topic {
                    Some(items) => JsonTree::Array(items),
                    None => JsonTree::Null,
                },
            )
        },
        i >= events.len() ==> selected(events_tree(events), SegmentView::Index(i)) is None,
{
    if i < events.len() {
        law_event_reads_back(events[i as int]);
    }
}

/// Different lists of events have different JSON arrays.
pub proof fn law_json_list_is_faithful(a: Seq<EventView>, b: Seq<EventView>)
    requires
        events_tree(a) == events_tree(b),
    ensures
        a == b,
{
    law_json_list_reads_back(a, 0);
    law_json_list_reads_back(b, 0);
    assert forall|i: int| 0 <= i < a.len() implies a[i] == b[i] by {
        law_json_list_reads_back(a, i as nat);
        law_json_list_reads_back(b, i as nat);
    }
    assert(a =~= b);
}

/// The JSON document of events is the indented text of an array with one object for each
/// of them, in order, which tells which event it is.
pub proof fn law_json_document_shows_all_events(events: Seq<EventView>)
    ensures
        exists|items: Seq<JsonTree>|
            {
                &&& #[trigger] items.len() == events.len()
                &&& json_document(events) == pretty_text(written(JsonTree::Array(items)))
                &&& forall|i: int|
                    0 <= i < items.len() ==> event_field(#[trigger] items[i], "id"@) == Some(
                        JsonTree::String(events[i].id),
                    ) && event_field(items[i], "contractId"@) == Some(
                        JsonTree::String(events[i].contract_id),
                    ) && event_field(items[i], "txHash"@) == Some(
                        JsonTree::String(events[i].tx_hash),
                    )
            },
{
    let items = events_tree(events)->Array_0;
    law_json_list_reads_back(events, 0);
    assert forall|i: int| 0 <= i < items.len() implies event_field(#[trigger] items[i], "id"@)
        == Some(JsonTree::String(events[i].id)) && event_field(items[i], "contractId"@) == Some(
        JsonTree::String(events[i].contract_id),
    ) && event_field(items[i], "txHash"@) == Some(JsonTree::String(events[i].tx_hash)) by {
        law_json_list_reads_back(events, i as nat);
    }
    assert(items.len() == events.len());
}

/// A field without a comma, quotation mark or line break stands in a CSV document as it
/// is, and any other stands between quotation marks.
pub proof fn law_csv_quotes_only_where_needed(field: Seq<char>)
    ensures
        !field.contains('"') && !field.contains(',') && !field.contains('\n') && !field.contains(
            '\r',
        ) ==> csv_field(field) == field,
        field.contains('"') || field.contains(',') || field.contains('\n') || field.contains('\r')
            ==> csv_field(field).len() >= field.len() + 2 && csv_field(field)[0] == '"'
            && csv_field(field).last() == '"',
{
    lemma_doubled_len(field);
    if exists|i: int| 0 <= i < field.len() && needs_quotes(#[trigger] field[i]) {
        let i = choose|i: int| 0 <= i < field.len() && needs_quotes(#[trigger] field[i]);
        assert(field.contains(field[i]));
    } else {
        assert forall|i: int| 0 <= i < field.len() implies field[i] != '"' && field[i] != ','
            && field[i] != '\n' && field[i] != '\r' by {
            assert(!needs_quotes(field[i]));
        }
    }
}

/// Doubling quotation marks makes no text shorter.
proof fn lemma_doubled_len(s: Seq<char>)
    ensures
        doubled_quotes(s).len() >= s.len(),
    decreases s.len(),
{
    if s.len() > 0 {
        lemma_doubled_len(s.drop_last());
    }
}

/// An attached list has the name, the media type and the content of its format.
pub proof fn law_event_list_follows_format(events: Seq<EventView>)
    ensures
        event_list(events, AttachmentFormat::Csv) == (AttachmentView {
            filename: "events.csv"@,
            content: csv_document(events),
            content_type: "text/csv"@,
        }),
        event_list(events, AttachmentFormat::Json) == (AttachmentView {
            filename: "events.json"@,
            content: json_document(events),
            content_type: "application/json"@,
        }),
{
}

/// A configured format is JSON exactly if it is the word `json`, each letter in either
/// case, with nothing but white space around it.
pub proof fn law_format_is_named_by_a_word(before: Seq<char>, word: Seq<char>, behind: Seq<char>)
    requires
        forall|i: int| 0 <= i < before.len() ==> white_space(#[trigger] before[i]),
        forall|i: int| 0 <= i < behind.len() ==> white_space(#[trigger] behind[i]),
        word.len() > 0 ==> !white_space(word[0]) && !white_space(word.last()),
    ensures
        named_format(before + word + behind) == if word.len() == 4 && (word[0] == 'j' || word[0]
            == 'J') && (word[1] == 's' || word[1] == 'S') && (word[2] == 'o' || word[2] == 'O')
            && (word[3] == 'n' || word[3] == 'N') {
            AttachmentFormat::Json
        } else {
            AttachmentFormat::Csv
        },
{
    law_trimmed_ignores_padding(before, word, behind);
    reveal_strlit("json");
    let lower = ascii_lower(word);
    assert(lower.len() == word.len());
    assert("json"@.len() == 4);
    assert(trimmed(before + word + behind) == word);
    if word.len() == 4 {
        law_ascii_lower_keeps_letters(word, 0);
        law_ascii_lower_keeps_letters(word, 1);
        law_ascii_lower_keeps_letters(word, 2);
        law_ascii_lower_keeps_letters(word, 3);
        if lower == "json"@ {
            assert(lower[0] == 'j' && lower[1] == 's' && lower[2] == 'o' && lower[3] == 'n');
        }
        if (word[0] == 'j' || word[0] == 'J') && (word[1] == 's' || word[1] == 'S') && (word[2]
            == 'o' || word[2] == 'O') && (word[3] == 'n' || word[3] == 'N') {
            assert(lower =~= "json"@);
        }
    }
}

} // verus!
