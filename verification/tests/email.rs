use soroban_notify::digest::{compose_digest, digest_subject, group_by_contract};
use soroban_notify::email::{
    csv_escape, generate_csv, generate_json, or_empty_array, AttachmentFormat, EmailAttachment,
    EmailNotifier,
};
use soroban_notify::event::SorobanEvent;
use soroban_notify::json::JsonValue;
use soroban_notify::message::{build_message, MessageError};
use soroban_notify::notifier::{
    already_sent, batch_key, key_of_digest, key_to_record, NotifierAction, NotifierInput,
};

fn mock_event(contract_id: &str, ledger: u64) -> SorobanEvent {
    SorobanEvent {
        contract_id: contract_id.to_string(),
        event_type: "contract".to_string(),
        tx_hash: "abc123".to_string(),
        ledger,
        ledger_closed_at: "2026-04-28T00:00:00Z".to_string(),
        ledger_hash: None,
        in_successful_call: true,
        value: JsonValue::Object(vec![(
            "test".to_string(),
            JsonValue::String("data".to_string()),
        )]),
        topic: None,
        ..Default::default()
    }
}

fn notifier(contract_filter: Vec<String>, max_events_in_body: usize) -> EmailNotifier {
    EmailNotifier::new(
        "smtp.example.com".to_string(),
        587,
        Some("user".to_string()),
        "from@example.com".to_string(),
        vec!["to@example.com".to_string()],
        contract_filter,
        max_events_in_body,
        AttachmentFormat::Csv,
    )
}

#[test]
fn test_email_notifier_creation() {
    let notifier = EmailNotifier::new(
        "smtp.example.com".to_string(),
        587,
        Some("user".to_string()),
        "from@example.com".to_string(),
        vec!["to@example.com".to_string()],
        vec![],
        50,
        AttachmentFormat::Csv,
    );

    assert_eq!(notifier.smtp_host, "smtp.example.com");
    assert_eq!(notifier.smtp_port, 587);
    assert_eq!(notifier.from, "from@example.com");
    assert_eq!(notifier.to.len(), 1);
    assert_eq!(notifier.max_events_in_body, 50);
}

#[test]
fn test_contract_filter_logic() {
    let filter = vec!["CONTRACT_A".to_string(), "CONTRACT_B".to_string()];
    let notifier = notifier(filter, 50);

    let event_a = mock_event("CONTRACT_A", 100);
    let event_b = mock_event("CONTRACT_B", 101);
    let event_c = mock_event("CONTRACT_C", 102);

    assert!(notifier.accepts(&event_a));
    assert!(notifier.accepts(&event_b));
    assert!(!notifier.accepts(&event_c));
}

#[test]
fn test_empty_contract_filter_allows_all() {
    let notifier = notifier(vec![], 50);
    let event = mock_event("ANY_CONTRACT", 100);

    assert!(notifier.accepts(&event));
}

#[test]
fn test_attachment_format_parse() {
    assert_eq!(AttachmentFormat::parse("csv"), AttachmentFormat::Csv);
    assert_eq!(AttachmentFormat::parse("JSON"), AttachmentFormat::Json);
    assert_eq!(AttachmentFormat::parse("xml"), AttachmentFormat::Csv);
    assert_eq!(AttachmentFormat::parse(""), AttachmentFormat::Csv);
}

#[test]
fn attachment_format_ignores_white_space_around() {
    assert_eq!(AttachmentFormat::parse(" \tJson\n"), AttachmentFormat::Json);
    assert_eq!(AttachmentFormat::parse("\u{a0}json\u{3000}"), AttachmentFormat::Json);
    assert_eq!(AttachmentFormat::parse("js on"), AttachmentFormat::Csv);
}

#[test]
fn test_generate_csv_has_header_and_rows() {
    let events = vec![mock_event("CONTRACT_A", 100), mock_event("CONTRACT_B", 101)];
    let csv = generate_csv(&events);
    let lines: Vec<&str> = csv.lines().collect();

    assert_eq!(
        lines[0],
        "contract_id,event_type,ledger,ledger_closed_at,tx_hash,in_successful_call"
    );
    assert_eq!(lines.len(), 3);
    assert!(lines[1].starts_with("CONTRACT_A,contract,100,"));
    assert!(lines[2].starts_with("CONTRACT_B,contract,101,"));
}

#[test]
fn test_csv_escapes_special_characters() {
    let mut event = mock_event("CONTRACT_A", 100);
    event.event_type = "weird,\"type\"".to_string();
    let csv = generate_csv(&[event]);
    assert!(csv.contains("\"weird,\"\"type\"\"\""));
}

#[test]
fn csv_rows_are_exact() {
    let mut event = mock_event("A\nB", 7);
    event.in_successful_call = false;
    assert_eq!(
        generate_csv(&[event]),
        "contract_id,event_type,ledger,ledger_closed_at,tx_hash,in_successful_call\n\
         \"A\nB\",contract,7,2026-04-28T00:00:00Z,abc123,false\n"
    );
    assert_eq!(csv_escape("plain"), "plain");
    assert_eq!(csv_escape(""), "");
    assert_eq!(csv_escape("a\rb"), "\"a\rb\"");
    assert_eq!(csv_escape("\""), "\"\"\"\"");
}

#[test]
fn test_generate_json_is_valid_array() {
    let events = vec![mock_event("CONTRACT_A", 100)];
    let json = generate_json(&events);
    let parsed: serde_json::Value = serde_json::from_str(&json).expect("valid json");
    assert!(parsed.is_array());
    assert_eq!(parsed.as_array().unwrap().len(), 1);
    assert_eq!(parsed[0]["contractId"], "CONTRACT_A");
}

#[test]
fn json_lists_hold_every_field() {
    let mut event = mock_event("C", u64::MAX);
    event.topic = Some(vec![JsonValue::Number("1.50".to_string()), JsonValue::Bool(true)]);
    let json = generate_json(&[event]);
    assert!(json.starts_with("[\n  {\n"));
    let parsed: serde_json::Value = serde_json::from_str(&json).expect("valid json");
    assert_eq!(parsed[0]["ledger"], u64::MAX);
    assert_eq!(parsed[0]["eventType"], "contract");
    assert_eq!(parsed[0]["txHash"], "abc123");
    assert_eq!(parsed[0]["inSuccessfulCall"], true);
    assert_eq!(parsed[0]["value"]["test"], "data");
    assert_eq!(parsed[0]["topic"][0], 1.5);
    assert_eq!(generate_json(&[]), "[]");
    assert_eq!(or_empty_array(None), "[]");
    assert_eq!(or_empty_array(Some("x".to_string())), "x");
}

#[test]
fn test_attachment_for_events_csv_and_json() {
    let events = vec![mock_event("CONTRACT_A", 100)];

    let csv = EmailAttachment::for_events(&events, AttachmentFormat::Csv);
    assert_eq!(csv.filename, "events.csv");
    assert_eq!(csv.content_type, "text/csv");
    assert!(csv.content.contains("CONTRACT_A"));

    let json = EmailAttachment::for_events(&events, AttachmentFormat::Json);
    assert_eq!(json.filename, "events.json");
    assert_eq!(json.content_type, "application/json");
    assert!(json.content.contains("CONTRACT_A"));
}

#[test]
fn test_attachment_threshold_logic() {
    let max_events_in_body = 50;
    let notifier = notifier(vec![], max_events_in_body);
    let small: Vec<SorobanEvent> = (0..50).map(|i| mock_event("C", 100 + i)).collect();
    assert!(small.len() <= max_events_in_body);
    assert!(notifier.digest_to_send(&small, None).expect("digest").attachment.is_none());
    let large: Vec<SorobanEvent> = (0..51).map(|i| mock_event("C", 100 + i)).collect();
    assert!(large.len() > max_events_in_body);
    assert!(notifier.digest_to_send(&large, None).expect("digest").attachment.is_some());
    let attachment = EmailAttachment::for_events(&large, AttachmentFormat::Csv);
    assert_eq!(attachment.content.lines().count(), 52);
}

#[test]
fn digest_of_two_contracts() {
    let mut events = vec![mock_event("B", 1), mock_event("A", 2), mock_event("B", 3)];
    events[2].event_type = "system".to_string();
    let digest = compose_digest(&events, 3, AttachmentFormat::Csv);
    assert_eq!(digest.subject, "Soroban Pulse: 3 new events indexed");
    assert_eq!(
        digest.body,
        "Soroban Pulse indexed 3 new events in the last minute.\n\n\
         Contract: B\n  Events: 2\n\
         \x20 - Type: contract, Ledger: 1, TxHash: abc123\n\
         \x20 - Type: system, Ledger: 3, TxHash: abc123\n\n\
         Contract: A\n  Events: 1\n\
         \x20 - Type: contract, Ledger: 2, TxHash: abc123\n\n"
    );
    assert!(digest.attachment.is_none());
    let groups = group_by_contract(&events);
    assert_eq!(groups.len(), 2);
    assert_eq!(groups[0].contract_id, "B");
    assert_eq!(groups[0].events.len() + groups[1].events.len(), 3);
}

#[test]
fn digest_lists_ten_events_of_a_contract() {
    assert_eq!(digest_subject(1), "Soroban Pulse: 1 new event indexed");
    for (n, rest) in [(10u64, ""), (11, "  ... and 1 more event\n"), (12, "  ... and 2 more events\n")] {
        let events: Vec<SorobanEvent> = (0..n).map(|i| mock_event("C", i)).collect();
        let digest = compose_digest(&events, 100, AttachmentFormat::Csv);
        assert_eq!(digest.body.matches("  - Type: ").count(), 10);
        assert!(digest.body.ends_with(&format!("Ledger: 9, TxHash: abc123\n{}\n", rest)));
    }
}

#[test]
fn large_digests_carry_a_note() {
    let events = vec![mock_event("C", 1), mock_event("C", 2)];
    let digest = compose_digest(&events, 1, AttachmentFormat::Json);
    assert!(digest.body.ends_with(
        "\n\nThe full list of 2 events is attached as events.json (application/json).\n"
    ));
    let attachment = digest.attachment.expect("attachment");
    assert_eq!(attachment.content, generate_json(&events));
}

#[test]
fn batches_that_were_sent_are_skipped() {
    let notifier = notifier(vec![], 50);
    let events = vec![mock_event("C", 1)];
    assert!(notifier.digest_to_send(&events, None).is_some());
    assert!(notifier.digest_to_send(&events, Some(0)).is_some());
    assert!(notifier.digest_to_send(&events, Some(1)).is_none());
    assert!(notifier.digest_to_send(&[], None).is_none());
    assert!(!already_sent(None));
    assert!(!already_sent(Some(-1)));
    assert!(already_sent(Some(2)));
}

#[test]
fn a_batch_is_sent_at_most_once() {
    let notifier = notifier(vec![], 50);
    let mut first = mock_event("C", 1);
    first.id = "first".to_string();
    let mut second = mock_event("C", 2);
    second.id = "second".to_string();
    let mut record: Vec<String> = Vec::new();
    let mut sent = 0;
    let mut attempt = |events: &[SorobanEvent], delivered: bool| {
        let key = batch_key(events).expect("key");
        let count = record.iter().filter(|k| **k == key).count() as i64;
        let due = notifier.digest_to_send(events, Some(count)).is_some();
        if due && delivered {
            sent += 1;
        }
        if due {
            record.extend(key_to_record(events, delivered));
        }
        due
    };
    // What could not be sent is due again.
    assert!(attempt(&[first.clone()], false));
    assert!(attempt(&[first.clone()], true));
    assert!(attempt(&[second.clone()], true));
    assert!(!attempt(&[first.clone()], true));
    assert!(!attempt(&[second], true));
    assert_eq!(sent, 2);
    assert_eq!(key_to_record(&[], true), None);
    assert_eq!(key_to_record(&[first.clone()], false), None);
    assert_eq!(key_to_record(&[first.clone()], true), batch_key(&[first]));
}

#[test]
fn batch_keys() {
    let mut a = mock_event("C", 1);
    a.id = "a".to_string();
    let mut b = mock_event("D", 2);
    b.id = "b".to_string();
    let key = batch_key(&[a.clone(), b.clone()]).expect("key");
    assert_eq!(key, "batch_1eb7c54d52831bbf");
    // Only the identifiers count.
    a.ledger = 9;
    assert_eq!(batch_key(&[a.clone(), b.clone()]), Some(key));
    assert_ne!(batch_key(&[b, a]), Some("batch_1eb7c54d52831bbf".to_string()));
    let mut accented = mock_event("C", 1);
    accented.id = "\u{e9}".to_string();
    assert_eq!(batch_key(&[accented]), Some("batch_4a99557e4033c353".to_string()));
    assert_eq!(batch_key(&[]), None);
    assert_eq!(
        key_of_digest(&[0, 1, 15, 16, 127, 128, 254, 255, 7]),
        "batch_00010f107f80feff"
    );
}

#[test]
fn the_channel_sends_every_accepted_event_once() {
    let notifier = notifier(vec!["A".to_string()], 50);
    let mut buffer: Vec<SorobanEvent> = Vec::new();
    let mut sent: Vec<Vec<u64>> = Vec::new();
    let mut lost = 0;
    let inputs = vec![
        NotifierInput::Tick,
        NotifierInput::Event(mock_event("A", 1)),
        NotifierInput::Event(mock_event("B", 2)),
        NotifierInput::Event(mock_event("A", 3)),
        NotifierInput::Tick,
        NotifierInput::Lagged(4),
        NotifierInput::Tick,
        NotifierInput::Event(mock_event("A", 5)),
        NotifierInput::Closed,
    ];
    let mut finished = false;
    for input in inputs {
        assert!(!finished);
        let ledgers = |batch: Vec<SorobanEvent>| batch.iter().map(|e| e.ledger).collect();
        match notifier.step(&mut buffer, input) {
            NotifierAction::Wait => {}
            NotifierAction::Send(batch) => sent.push(ledgers(batch)),
            NotifierAction::ReportLag(n) => lost += n,
            NotifierAction::Finish(batch) => {
                sent.push(ledgers(batch));
                finished = true;
            }
        }
    }
    assert!(finished);
    assert!(buffer.is_empty());
    assert_eq!(lost, 4);
    assert_eq!(sent, vec![vec![1, 3], vec![5]]);
}

#[test]
fn closing_an_idle_channel_sends_nothing() {
    let notifier = notifier(vec![], 50);
    let mut buffer: Vec<SorobanEvent> = Vec::new();
    match notifier.step(&mut buffer, NotifierInput::Closed) {
        NotifierAction::Finish(batch) => assert!(batch.is_empty()),
        other => panic!("unexpected action {:?}", other),
    }
}

#[test]
fn plain_messages() {
    let notifier = notifier(vec![], 50);
    let digest = notifier.digest_to_send(&[mock_event("C", 1)], None).expect("digest");
    let message = notifier.message(digest).expect("message");
    let text = String::from_utf8(message.formatted()).expect("text");
    assert!(text.contains("From: from@example.com\r\n"));
    assert!(text.contains("To: to@example.com\r\n"));
    assert!(text.contains("Subject: Soroban Pulse: 1 new event indexed\r\n"));
    assert!(text.contains("Content-Type: text/plain; charset=utf-8\r\n"));
    assert!(text.contains("Contract: C\r\n"));
    assert!(!text.contains("multipart"));
    assert_eq!(message.envelope().to().len(), 1);
}

#[test]
fn messages_with_an_attachment() {
    let mut notifier = notifier(vec![], 0);
    notifier.to.push("Second <second@example.com>".to_string());
    let digest = notifier.digest_to_send(&[mock_event("C", 1)], None).expect("digest");
    let message = notifier.message(digest).expect("message");
    let text = String::from_utf8(message.formatted()).expect("text");
    assert!(text.contains("Content-Type: multipart/mixed;"));
    assert!(text.contains("Content-Type: text/csv\r\n"));
    assert!(text.contains("Content-Disposition: attachment; filename=\"events.csv\"\r\n"));
    assert!(text.contains("C,contract,1,2026-04-28T00:00:00Z,abc123,true"));
    // The body comes before the file.
    let body = text.find("Content-Type: text/plain; charset=utf-8\r\n").expect("body");
    assert!(body < text.find("Content-Type: text/csv\r\n").expect("file"));
    let recipients: Vec<String> =
        message.envelope().to().iter().map(|a| a.to_string()).collect();
    assert_eq!(recipients, vec!["to@example.com", "second@example.com"]);
}

#[test]
fn recipients_that_do_not_read_back_are_dropped() {
    let odd = "\"\\\"a,b\\\"\"@example.com";
    assert!(odd.parse::<lettre::message::Mailbox>().is_ok());
    let to = vec![odd.to_string(), "c@example.com".to_string()];
    let message = build_message("a@example.com", &to, "s", "b", None).expect("message");
    let recipients: Vec<String> =
        message.envelope().to().iter().map(|a| a.to_string()).collect();
    assert_eq!(recipients, vec!["c@example.com"]);
}

#[test]
fn unknown_media_types_become_plain_text() {
    let attachment = EmailAttachment {
        filename: "f.bin".to_string(),
        content: "x".to_string(),
        content_type: "no media type".to_string(),
    };
    let message = build_message(
        "a@example.com",
        &vec!["b@example.com".to_string()],
        "s",
        "b",
        Some(attachment),
    )
    .expect("message");
    let text = String::from_utf8(message.formatted()).expect("text");
    assert_eq!(text.matches("Content-Type: text/plain; charset=utf-8\r\n").count(), 2);
}

#[test]
fn messages_need_addresses() {
    let to = vec!["to@example.com".to_string(), "nobody".to_string()];
    let reason = "nobody".parse::<lettre::message::Mailbox>().unwrap_err().to_string();
    match build_message("nobody", &to, "s", "b", None) {
        Err(MessageError::Sender(text)) => assert_eq!(text, reason),
        other => panic!("unexpected outcome {:?}", other),
    }
    match build_message("from@example.com", &to, "s", "b", None) {
        Err(MessageError::Recipient(at, text)) => assert_eq!((at, text), (1, reason)),
        other => panic!("unexpected outcome {:?}", other),
    }
    assert!(matches!(
        build_message("from@example.com", &vec![], "s", "b", None),
        Err(MessageError::Assembly(_))
    ));
}
