//! Contract events, as notifications see them.

use crate::json::JsonValue;
use vstd::prelude::*;

verus! {

use crate::json::{trees, JsonTree};

/// An indexed contract event.
#[derive(Debug, Clone)]
pub struct SorobanEvent {
    /// The text of the event's identifier.
    pub id: String,
    pub contract_id: String,
    pub event_type: String,
    pub tx_hash: String,
    pub ledger: u64,
    pub ledger_closed_at: String,
    pub ledger_hash: Option<String>,
    pub in_successful_call: bool,
    pub value: JsonValue,
    pub topic: Option<Vec<JsonValue>>,
}

/// What a [`SorobanEvent`] stands for.
pub struct EventView {
    pub id: Seq<char>,
    pub contract_id: Seq<char>,
    pub event_type: Seq<char>,
    pub tx_hash: Seq<char>,
    pub ledger: u64,
    pub ledger_closed_at: Seq<char>,
    pub ledger_hash: Option<Seq<char>>,
    pub in_successful_call: bool,
    pub value: JsonTree,
    pub topic: Option<Seq<JsonTree>>,
}

impl View for SorobanEvent {
    type V = EventView;

    open spec fn view(&self) -> EventView {
        EventView {
            id: self.id@,
            contract_id: self.contract_id@,
            event_type: self.event_type@,
            tx_hash: self.tx_hash@,
            ledger: self.ledger,
            ledger_closed_at: self.ledger_closed_at@,
            ledger_hash: match self.ledger_hash {
                Some(hash) => Some(hash@),
                None => None,
            },
            in_successful_call: self.in_successful_call,
            value: self.value@,
            topic: match self.topic {
                Some(items) => Some(trees(items@)),
                None => None,
            },
        }
    }
}

/// The views of `events`, in order.
pub open spec fn event_views(events: Seq<SorobanEvent>) -> Seq<EventView> {
    Seq::new(events.len(), |i: int| events[i]@)
}

impl Default for SorobanEvent {
    /// An event without any content.
    fn default() -> (r: Self)
        ensures
            r@ == (EventView {
                id: seq![],
                contract_id: seq![],
                event_type: seq![],
                tx_hash: seq![],
                ledger: 0,
                ledger_closed_at: seq![],
                ledger_hash: None,
                in_successful_call: false,
                value: JsonTree::Null,
                topic: None,
            }),
    {
        SorobanEvent {
            id: String::new(),
            contract_id: String::new(),
            event_type: String::new(),
            tx_hash: String::new(),
            ledger: 0,
            ledger_closed_at: String::new(),
            ledger_hash: None,
            in_successful_call: false,
            value: JsonValue::Null,
            topic: None,
        }
    }
}

/// A string, or `null` in its absence.
pub open spec fn optional_string_tree(text: Option<Seq<char>>) -> JsonTree {
    match text {
        Some(text) => JsonTree::String(text),
        None => JsonTree::Null,
    }
}

/// An array, or `null` in its absence.
pub open spec fn optional_array_tree(items: Option<Seq<JsonTree>>) -> JsonTree {
    match items {
        Some(items) => JsonTree::Array(items),
        None => JsonTree::Null,
    }
}

/// The JSON object of an event.
pub open spec fn event_tree(event: EventView) -> JsonTree {
    JsonTree::Object(
        seq![
            ("id"@, JsonTree::String(event.id)),
            ("contractId"@, JsonTree::String(event.contract_id)),
            ("eventType"@, JsonTree::String(event.event_type)),
            ("txHash"@, JsonTree::String(event.tx_hash)),
            ("ledger"@, JsonTree::Number(crate::text::decimal(event.ledger as nat))),
            ("ledgerClosedAt"@, JsonTree::String(event.ledger_closed_at)),
            ("ledgerHash"@, optional_string_tree(event.ledger_hash)),
            ("inSuccessfulCall"@, JsonTree::Bool(event.in_successful_call)),
            ("value"@, event.value),
            ("topic"@, optional_array_tree(event.topic)),
        ],
    )
}

impl SorobanEvent {
    /// The JSON object of this event.
    pub fn to_json(&self) -> (r: JsonValue)
        ensures
            r@ == event_tree(self@),
    {
        let mut ledger = String::new();
        crate::text::push_decimal(&mut ledger, self.ledger);
        assert(ledger@ == crate::text::decimal(self.ledger as nat));
        let ledger_hash = match &self.ledger_hash {
            Some(hash) => JsonValue::String(hash.clone()),
            None => JsonValue::Null,
        };
        let topic = match &self.topic {
            Some(items) => {
                let copies = crate::json::copy_items(items);
                let array = JsonValue::Array(copies);
                proof {
                    crate::json::lemma_tree_of_parts(array);
                }
                array
            },
            None => JsonValue::Null,
        };
        let mut fields: Vec<(String, JsonValue)> = Vec::new();
        fields.push((String::from_str("id"), JsonValue::String(self.id.clone())));
        fields.push((String::from_str("contractId"), JsonValue::String(self.contract_id.clone())));
        fields.push((String::from_str("eventType"), JsonValue::String(self.event_type.clone())));
        fields.push((String::from_str("txHash"), JsonValue::String(self.tx_hash.clone())));
        fields.push((String::from_str("ledger"), JsonValue::Number(ledger)));
        fields.push(
            (String::from_str("ledgerClosedAt"), JsonValue::String(self.ledger_closed_at.clone())),
        );
        fields.push((String::from_str("ledgerHash"), ledger_hash));
        fields.push(
            (String::from_str("inSuccessfulCall"), JsonValue::Bool(self.in_successful_call)),
        );
        fields.push((String::from_str("value"), self.value.clone()));
        fields.push((String::from_str("topic"), topic));
        let object = JsonValue::Object(fields);
        proof {
            crate::json::lemma_tree_of_parts(object);
            assert(object@->Object_0 =~= event_tree(self@)->Object_0);
        }
        object
    }
}

/// The value of the field `key` of the JSON object of an event.
pub open spec fn event_field(tree: JsonTree, key: Seq<char>) -> Option<JsonTree> {
    crate::json::selected(tree, crate::path::SegmentView::Key(key))
}

/// The JSON object of an event holds each of its fields under the field's name.
pub proof fn law_event_reads_back(event: EventView)
    ensures
        ({
            let tree = event_tree(event);
            &&& event_field(tree, "id"@) == Some(JsonTree::String(event.id))
            &&& event_field(tree, "contractId"@) == Some(JsonTree::String(event.contract_id))
            &&& event_field(tree, "eventType"@) == Some(JsonTree::String(event.event_type))
            &&& event_field(tree, "txHash"@) == Some(JsonTree::String(event.tx_hash))
            &&& event_field(tree, "ledger"@) matches Some(JsonTree::Number(numeral))
                && crate::text::all_digits(numeral) && crate::text::digits_value(numeral)
                == event.ledger
            &&& event_field(tree, "ledgerClosedAt"@) == Some(
                JsonTree::String(event.ledger_closed_at),
            )
            &&& event_field(tree, "ledgerHash"@) == Some(
                match event.ledger_hash {
                    Some(hash) => JsonTree::String(hash),
                    None => JsonTree::Null,
                },
            )
            &&& event_field(tree, "inSuccessfulCall"@) == Some(
                JsonTree::Bool(event.in_successful_call),
            )
            &&& event_field(tree, "value"@) == Some(event.value)
            &&& event_field(tree, "topic"@) == Some(
                match event.topic {
                    Some(items) => JsonTree::Array(items),
                    None => JsonTree::Null,
                },
            )
        }),
{
    let fields = event_tree(event)->Object_0;
    reveal_strlit("id");
    reveal_strlit("contractId");
    reveal_strlit("eventType");
    reveal_strlit("txHash");
    reveal_strlit("ledger");
    reveal_strlit("ledgerClosedAt");
    reveal_strlit("ledgerHash");
    reveal_strlit("inSuccessfulCall");
    reveal_strlit("value");
    reveal_strlit("topic");
    lemma_named_field(fields, 0);
    lemma_named_field(fields, 1);
    lemma_named_field(fields, 2);
    lemma_named_field(fields, 3);
    lemma_named_field(fields, 4);
    lemma_named_field(fields, 5);
    lemma_named_field(fields, 6);
    lemma_named_field(fields, 7);
    lemma_named_field(fields, 8);
    lemma_named_field(fields, 9);
    assert("txHash"@[0] != "ledger"@[0]);
    assert("value"@[0] != "topic"@[0]);
    assert("value"@[0] != "ledger"@[0]);
    assert("value"@.len() == 5 && "topic"@.len() == 5 && "txHash"@.len() == 6 && "ledger"@.len()
        == 6 && "id"@.len() == 2);
    assert("contractId"@[0] != "ledgerHash"@[0]);
    assert("contractId"@.len() == 10 && "ledgerHash"@.len() == 10 && "eventType"@.len() == 9
        && "ledgerClosedAt"@.len() == 14 && "inSuccessfulCall"@.len() == 16);
    crate::text::law_decimal_reads_back(event.ledger as nat);
}

/// A field is found under its name where no field behind it has that name.
proof fn lemma_named_field(fields: Seq<(Seq<char>, JsonTree)>, i: int)
    requires
        0 <= i < fields.len(),
    ensures
        (forall|j: int| i < j < fields.len() ==> (#[trigger] fields[j]).0 != fields[i].0)
            ==> event_field(JsonTree::Object(fields), fields[i].0) == Some(fields[i].1),
{
    if forall|j: int| i < j < fields.len() ==> (#[trigger] fields[j]).0 != fields[i].0 {
        let before = fields.take(i);
        let behind = fields.skip(i + 1);
        assert forall|j: int| 0 <= j < behind.len() implies (#[trigger] behind[j]).0
            != fields[i].0 by {
            assert(behind[j] == fields[i + 1 + j]);
        }
        crate::json::law_key_selects_last_field(before, fields[i].0, fields[i].1, behind);
        assert(before + seq![(fields[i].0, fields[i].1)] + behind =~= fields);
    }
}

} // verus!
