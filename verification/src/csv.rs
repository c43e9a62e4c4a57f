//! What a reader of CSV (RFC 4180) finds in a document of events.

use vstd::prelude::*;

verus! {

use crate::email::{
    csv_document, csv_field, csv_header, csv_row, csv_rows, doubled_quotes, needs_quotes,
};
use crate::event::EventView;
use crate::json::bool_text;
use crate::text::{all_digits, decimal, is_digit, law_decimal_reads_back};

/// What is read of a text: a value, and the text behind it.
pub struct Read<T> {
    pub value: T,
    pub rest: Seq<char>,
}

/// Reads a field behind its opening quotation mark: a doubled mark stands for one,
/// a single one closes the field.
pub open spec fn read_quoted(s: Seq<char>) -> Option<Read<Seq<char>>>
    decreases s.len(),
{
    if s.len() == 0 {
        None
    } else if s[0] != '"' {
        after_char(s[0], read_quoted(s.skip(1)))
    } else if s.len() > 1 && s[1] == '"' {
        after_char('"', read_quoted(s.skip(2)))
    } else {
        Some(Read { value: seq![], rest: s.skip(1) })
    }
}

/// `c` before the field that was read.
pub open spec fn after_char(
    c: char,
    read: Option<Read<Seq<char>>>,
) -> Option<Read<Seq<char>>> {
    match read {
        Some(r) => Some(Read { value: seq![c] + r.value, rest: r.rest }),
        None => None,
    }
}

/// Reads a field without quotation marks: it ends before a comma or a line break.
pub open spec fn read_plain(s: Seq<char>) -> Option<Read<Seq<char>>>
    decreases s.len(),
{
    if s.len() == 0 || s[0] == ',' || s[0] == '\n' {
        Some(Read { value: seq![], rest: s })
    } else {
        after_char(s[0], read_plain(s.skip(1)))
    }
}

/// Reads a field.
pub open spec fn read_field(s: Seq<char>) -> Option<Read<Seq<char>>> {
    if s.len() > 0 && s[0] == '"' {
        read_quoted(s.skip(1))
    } else {
        read_plain(s)
    }
}

/// Reads a record: fields with commas between them, and a line break.
pub open spec fn read_record(s: Seq<char>) -> Option<Read<Seq<Seq<char>>>>
    decreases s.len(),
{
    match read_field(s) {
        Some(field) => if field.rest.len() == 0 || field.rest.len() > s.len() {
            None
        } else if field.rest[0] == '\n' {
            Some(Read { value: seq![field.value], rest: field.rest.skip(1) })
        } else if field.rest[0] == ',' {
            match read_record(field.rest.skip(1)) {
                Some(r) => Some(Read { value: seq![field.value] + r.value, rest: r.rest }),
                None => None,
            }
        } else {
            None
        },
        None => None,
    }
}

/// Reads a document: records to the end of the text.
pub open spec fn read_records(s: Seq<char>) -> Option<Seq<Seq<Seq<char>>>>
    decreases s.len(),
{
    if s.len() == 0 {
        Some(seq![])
    } else {
        match read_record(s) {
            Some(record) => if record.rest.len() < s.len() {
                match read_records(record.rest) {
                    Some(records) => Some(seq![record.value] + records),
                    None => None,
                }
            } else {
                None
            },
            None => None,
        }
    }
}

/// Doubling quotation marks works character by character, also from the front.
proof fn lemma_doubled_front(s: Seq<char>)
    requires
        s.len() > 0,
    ensures
        doubled_quotes(s) == if s[0] == '"' {
            seq!['"', '"'] + doubled_quotes(s.skip(1))
        } else {
            seq![s[0]] + doubled_quotes(s.skip(1))
        },
    decreases s.len(),
{
    reveal_with_fuel(doubled_quotes, 2);
    if s.len() == 1 {
        assert(s.drop_last() == Seq::<char>::empty());
        assert(s.skip(1) == Seq::<char>::empty());
        assert(doubled_quotes(s) =~= if s[0] == '"' {
            seq!['"', '"'] + doubled_quotes(s.skip(1))
        } else {
            seq![s[0]] + doubled_quotes(s.skip(1))
        });
    } else {
        lemma_doubled_front(s.drop_last());
        assert(s.drop_last().skip(1) == s.skip(1).drop_last());
        assert(doubled_quotes(s) =~= if s[0] == '"' {
            seq!['"', '"'] + doubled_quotes(s.skip(1))
        } else {
            seq![s[0]] + doubled_quotes(s.skip(1))
        });
    }
}

/// A field with its quotation marks doubled reads back, up to the closing mark.
proof fn lemma_quoted_reads_back(field: Seq<char>, rest: Seq<char>)
    requires
        rest.len() > 0 ==> rest[0] != '"',
    ensures
        read_quoted(doubled_quotes(field) + seq!['"'] + rest) == Some(
            Read { value: field, rest },
        ),
    decreases field.len(),
{
    let s = doubled_quotes(field) + seq!['"'] + rest;
    if field.len() == 0 {
        assert(s == seq!['"'] + rest);
        assert(s.skip(1) == rest);
        assert(field == Seq::<char>::empty());
    } else {
        lemma_doubled_front(field);
        lemma_quoted_reads_back(field.skip(1), rest);
        let next = doubled_quotes(field.skip(1)) + seq!['"'] + rest;
        assert(seq![field[0]] + field.skip(1) == field);
        if field[0] == '"' {
            assert(s.skip(2) == next);
            assert(s[0] == '"' && s[1] == '"');
        } else {
            assert(s.skip(1) == next);
            assert(s[0] == field[0]);
        }
    }
}

/// A field without special characters reads back as it is.
proof fn lemma_plain_reads_back(field: Seq<char>, rest: Seq<char>)
    requires
        rest.len() > 0,
        rest[0] == ',' || rest[0] == '\n',
        forall|i: int| 0 <= i < field.len() ==> !needs_quotes(#[trigger] field[i]),
    ensures
        read_plain(field + rest) == Some(Read { value: field, rest }),
    decreases field.len(),
{
    let s = field + rest;
    if field.len() == 0 {
        assert(s == rest);
        assert(field == Seq::<char>::empty());
    } else {
        assert(!needs_quotes(field[0]));
        assert forall|i: int| 0 <= i < field.skip(1).len() implies !needs_quotes(
            #[trigger] field.skip(1)[i],
        ) by {
            assert(field.skip(1)[i] == field[i + 1]);
        }
        lemma_plain_reads_back(field.skip(1), rest);
        assert(s.skip(1) == field.skip(1) + rest);
        assert(seq![field[0]] + field.skip(1) == field);
    }
}

/// Every field, whatever it holds, reads back from its escaped form, before a
/// comma or a line break.
pub proof fn law_field_reads_back(field: Seq<char>, rest: Seq<char>)
    requires
        rest.len() > 0,
        rest[0] == ',' || rest[0] == '\n',
    ensures
        read_field(csv_field(field) + rest) == Some(Read { value: field, rest }),
{
    let s = csv_field(field) + rest;
    if exists|i: int| 0 <= i < field.len() && needs_quotes(#[trigger] field[i]) {
        lemma_quoted_reads_back(field, rest);
        assert(s.skip(1) == doubled_quotes(field) + seq!['"'] + rest);
        assert(s[0] == '"');
    } else {
        lemma_plain_reads_back(field, rest);
        if field.len() > 0 {
            assert(!needs_quotes(field[0]));
            assert(s[0] == field[0]);
        } else {
            assert(s == rest);
        }
    }
}

/// A record of `fields`: each of them escaped, commas between them, and a line
/// break.
pub open spec fn written_record(fields: Seq<Seq<char>>) -> Seq<char>
    decreases fields.len(),
{
    if fields.len() == 0 {
        seq![]
    } else if fields.len() == 1 {
        csv_field(fields[0]) + seq!['\n']
    } else {
        csv_field(fields[0]) + seq![','] + written_record(fields.skip(1))
    }
}

/// Every record reads back as the fields that it was written from.
pub proof fn law_record_reads_back(fields: Seq<Seq<char>>, rest: Seq<char>)
    requires
        fields.len() > 0,
    ensures
        read_record(written_record(fields) + rest) == Some(Read { value: fields, rest }),
    decreases fields.len(),
{
    let s = written_record(fields) + rest;
    if fields.len() == 1 {
        let behind = seq!['\n'] + rest;
        law_field_reads_back(fields[0], behind);
        assert(s == csv_field(fields[0]) + behind);
        assert(behind.skip(1) == rest);
        assert(seq![fields[0]] == fields);
    } else {
        let next = written_record(fields.skip(1)) + rest;
        let behind = seq![','] + next;
        law_field_reads_back(fields[0], behind);
        assert(s == csv_field(fields[0]) + behind);
        assert(behind.skip(1) == next);
        law_record_reads_back(fields.skip(1), rest);
        assert(seq![fields[0]] + fields.skip(1) == fields);
    }
}

/// The names of the columns.
pub open spec fn column_names() -> Seq<Seq<char>> {
    seq![
        "contract_id"@,
        "event_type"@,
        "ledger"@,
        "ledger_closed_at"@,
        "tx_hash"@,
        "in_successful_call"@,
    ]
}

/// The fields of an event, in the order of the columns.
pub open spec fn column_values(event: EventView) -> Seq<Seq<char>> {
    seq![
        event.contract_id,
        event.event_type,
        decimal(event.ledger as nat),
        event.ledger_closed_at,
        event.tx_hash,
        bool_text(event.in_successful_call),
    ]
}

/// The record of six fields, written out.
proof fn lemma_six_fields(f: Seq<Seq<char>>)
    requires
        f.len() == 6,
    ensures
        written_record(f) == csv_field(f[0]) + seq![','] + csv_field(f[1]) + seq![',']
            + csv_field(f[2]) + seq![','] + csv_field(f[3]) + seq![','] + csv_field(f[4])
            + seq![','] + csv_field(f[5]) + seq!['\n'],
{
    reveal_with_fuel(written_record, 6);
    assert(f.skip(1).skip(1) == f.skip(2));
    assert(f.skip(2).skip(1) == f.skip(3));
    assert(f.skip(3).skip(1) == f.skip(4));
    assert(f.skip(4).skip(1) == f.skip(5));
    assert(written_record(f) =~= csv_field(f[0]) + seq![','] + csv_field(f[1]) + seq![',']
        + csv_field(f[2]) + seq![','] + csv_field(f[3]) + seq![','] + csv_field(f[4]) + seq![',']
        + csv_field(f[5]) + seq!['\n']);
}

/// The line of an event is the record of its fields.
proof fn lemma_row_is_record(event: EventView)
    ensures
        csv_row(event) == written_record(column_values(event)),
{
    let f = column_values(event);
    lemma_six_fields(f);
    law_decimal_reads_back(event.ledger as nat);
    assert forall|i: int| 0 <= i < f[2].len() implies !needs_quotes(#[trigger] f[2][i]) by {
        assert(is_digit(f[2][i]));
    }
    assert(csv_field(f[2]) == f[2]);
    reveal_strlit("true");
    reveal_strlit("false");
    assert(csv_field(f[5]) == f[5]);
    reveal_strlit(",");
    reveal_strlit("\n");
    assert(","@ =~= seq![',']);
    assert("\n"@ =~= seq!['\n']);
}

/// The first line is the record of the column names.
proof fn lemma_header_is_record()
    ensures
        csv_header() == written_record(column_names()),
{
    let f = column_names();
    lemma_six_fields(f);
    reveal_strlit("contract_id");
    reveal_strlit("event_type");
    reveal_strlit("ledger");
    reveal_strlit("ledger_closed_at");
    reveal_strlit("tx_hash");
    reveal_strlit("in_successful_call");
    reveal_strlit("contract_id,event_type,ledger,ledger_closed_at,tx_hash,in_successful_call\n");
    assert(csv_field(f[0]) == f[0]);
    assert(csv_field(f[1]) == f[1]);
    assert(csv_field(f[2]) == f[2]);
    assert(csv_field(f[3]) == f[3]);
    assert(csv_field(f[4]) == f[4]);
    assert(csv_field(f[5]) == f[5]);
    assert(csv_header() =~= written_record(column_names()));
}

/// The records of `events`, in order.
pub open spec fn event_records(events: Seq<EventView>) -> Seq<Seq<Seq<char>>> {
    events.map_values(|e: EventView| column_values(e))
}

/// The lines of events, from the front.
proof fn lemma_rows_front(events: Seq<EventView>)
    requires
        events.len() > 0,
    ensures
        csv_rows(events) == csv_row(events[0]) + csv_rows(events.skip(1)),
    decreases events.len(),
{
    reveal_with_fuel(csv_rows, 2);
    if events.len() == 1 {
        assert(events.drop_last() == Seq::<EventView>::empty());
        assert(events.skip(1) == Seq::<EventView>::empty());
        assert(csv_rows(events) =~= csv_row(events[0]) + csv_rows(events.skip(1)));
    } else {
        lemma_rows_front(events.drop_last());
        assert(events.drop_last().skip(1) == events.skip(1).drop_last());
        assert(csv_rows(events) =~= csv_row(events[0]) + csv_rows(events.skip(1)));
    }
}

/// The lines of events read back as their records.
proof fn lemma_rows_read_back(events: Seq<EventView>)
    ensures
        read_records(csv_rows(events)) == Some(event_records(events)),
    decreases events.len(),
{
    if events.len() == 0 {
        assert(event_records(events) =~= Seq::<Seq<Seq<char>>>::empty());
    } else {
        let next = csv_rows(events.skip(1));
        lemma_rows_front(events);
        lemma_row_is_record(events[0]);
        law_record_reads_back(column_values(events[0]), next);
        lemma_six_fields(column_values(events[0]));
        lemma_rows_read_back(events.skip(1));
        assert(event_records(events) =~= seq![column_values(events[0])] + event_records(
            events.skip(1),
        ));
    }
}

/// The CSV document of any events reads back as the column names and one record
/// of fields for each event, in order.
pub proof fn law_document_reads_back(events: Seq<EventView>)
    ensures
        read_records(csv_document(events)) == Some(
            seq![column_names()] + event_records(events),
        ),
{
    lemma_header_is_record();
    law_record_reads_back(column_names(), csv_rows(events));
    lemma_six_fields(column_names());
    lemma_rows_read_back(events);
}

} // verus!
