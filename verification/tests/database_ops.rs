use netsim::json::{json_eq, JsonValue};
use netsim::message::{DatabaseCall, DatabaseCallType, Message, MessageComponent};
use netsim::node::database::{Database, DatabaseState};

fn doc(name: &str) -> JsonValue {
    JsonValue::Obj(vec![(
        "name".to_string(),
        JsonValue::Str(name.to_string()),
    )])
}

#[test]
fn save_without_id_assigns_current_count() {
    let mut db = Database::new();
    let saved = db.save(doc("first")).expect("saved");
    let expected = JsonValue::Obj(vec![
        ("name".to_string(), JsonValue::Str("first".to_string())),
        ("id".to_string(), JsonValue::Int(0)),
    ]);
    assert!(json_eq(&saved, &expected));
    let saved2 = db.save(doc("second")).expect("saved");
    let expected2 = JsonValue::Obj(vec![
        ("name".to_string(), JsonValue::Str("second".to_string())),
        ("id".to_string(), JsonValue::Int(1)),
    ]);
    assert!(json_eq(&saved2, &expected2));
}

#[test]
fn find_one_after_save_returns_same_document() {
    let mut db = Database::new();
    let saved = db.save(doc("kept")).expect("saved");
    let found = db.find_one(0).expect("found");
    assert!(json_eq(&found, &saved));
    assert!(db.find_one(1).is_none());
}

#[test]
fn delete_then_contains_is_false() {
    let mut db = Database::new();
    db.save(doc("gone")).expect("saved");
    assert!(db.contains(0));
    db.delete(0);
    assert!(!db.contains(0));
    db.delete(0);
    assert!(!db.contains(0));
}

#[test]
fn save_with_explicit_id_upserts() {
    let mut db = Database::new();
    let with_id = JsonValue::Obj(vec![
        ("id".to_string(), JsonValue::Int(5)),
        ("name".to_string(), JsonValue::Str("five".to_string())),
    ]);
    let echoed = db.save(with_id).expect("saved");
    assert!(json_eq(&echoed, &db.find_one(5).unwrap()));
    let replacement = JsonValue::Obj(vec![
        ("id".to_string(), JsonValue::Int(5)),
        ("name".to_string(), JsonValue::Str("other".to_string())),
    ]);
    db.save(replacement).expect("saved");
    let found = db.find_one(5).unwrap();
    let expected = JsonValue::Obj(vec![
        ("id".to_string(), JsonValue::Int(5)),
        ("name".to_string(), JsonValue::Str("other".to_string())),
    ]);
    assert!(json_eq(&found, &expected));
}

#[test]
fn save_with_negative_id_is_refused() {
    let mut db = Database::new();
    let bad = JsonValue::Obj(vec![("id".to_string(), JsonValue::Int(-3))]);
    assert!(db.save(bad).is_none());
    assert!(db.find_all().is_empty());
}

#[test]
fn find_all_keeps_insertion_order() {
    let mut db = Database::new();
    db.save(doc("a")).unwrap();
    db.save(doc("b")).unwrap();
    let all = db.find_all();
    assert_eq!(all.len(), 2);
    let expected_a = JsonValue::Obj(vec![
        ("name".to_string(), JsonValue::Str("a".to_string())),
        ("id".to_string(), JsonValue::Int(0)),
    ]);
    assert!(json_eq(&all[0], &expected_a));
}

#[test]
fn queue_is_answered_in_order_with_same_trace_ids() {
    let mut db = Database::new();
    db.start_simulation();
    assert_eq!(db.state(), DatabaseState::Active);
    db.handle_message(MessageComponent {
        sender: 7,
        recipient: 2,
        message: Message::DatabaseCall(DatabaseCall {
            name: "db1".to_string(),
            call_type: DatabaseCallType::Save(doc("queued")),
        }),
        trace_id: 41,
    });
    db.handle_message(MessageComponent {
        sender: 7,
        recipient: 2,
        message: Message::DatabaseCall(DatabaseCall {
            name: "db1".to_string(),
            call_type: DatabaseCallType::Contains(0),
        }),
        trace_id: 42,
    });
    let events = db.process_queue(2);
    assert_eq!(events.len(), 2);
    assert_eq!(events[0].trace_id, 41);
    assert_eq!(events[0].recipients, vec![7]);
    assert_eq!(events[1].trace_id, 42);
    match &events[1].message {
        Message::DatabaseAnswer(v) => assert!(json_eq(v, &JsonValue::Bool(true))),
        other => panic!("unexpected answer {:?}", other),
    }
}

#[test]
fn non_database_calls_are_ignored_silently() {
    let mut db = Database::new();
    db.start_simulation();
    db.handle_message(MessageComponent {
        sender: 7,
        recipient: 2,
        message: Message::DatabaseAnswer(JsonValue::Null),
        trace_id: 9,
    });
    let events = db.process_queue(2);
    assert!(events.is_empty());
}

#[test]
fn reset_clears_queue_but_keeps_documents() {
    let mut db = Database::new();
    db.save(doc("persistent")).unwrap();
    db.start_simulation();
    db.handle_message(MessageComponent {
        sender: 1,
        recipient: 2,
        message: Message::DatabaseCall(DatabaseCall {
            name: "db1".to_string(),
            call_type: DatabaseCallType::Delete(0),
        }),
        trace_id: 1,
    });
    db.reset();
    assert_eq!(db.state(), DatabaseState::SimulationNotStarted);
    assert!(db.contains(0));
    db.start_simulation();
    assert!(db.process_queue(2).is_empty());
}
