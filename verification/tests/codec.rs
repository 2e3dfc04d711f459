use gymticks::codec::{export_json, import_json};
use gymticks::ledger::Snapshot;
use gymticks::route::TickKind;

fn populated() -> Snapshot {
    let mut s = Snapshot::new_default();
    s.insert_route(
        7,
        "slab \"classic\"".to_string(),
        "red".to_string(),
        "SLB".to_string(),
        "V3".to_string(),
    );
    s.insert_route(
        42,
        "back\\slash\nand tab\t".to_string(),
        "blue".to_string(),
        "AB2".to_string(),
        "10+".to_string(),
    );
    s.record_tick(7, TickKind::Attempt, -12345);
    s.record_tick(7, TickKind::Ascent, 1700000000);
    s.record_tick(42, TickKind::Ascent, i64::MIN);
    s.record_tick(42, TickKind::Attempt, i64::MAX);
    s.retire(42);
    s
}

fn assert_same(a: &Snapshot, b: &Snapshot) {
    assert_eq!(a.routes.len(), b.routes.len());
    for (ea, eb) in a.routes.iter().zip(b.routes.iter()) {
        assert_eq!(ea.0, eb.0);
        assert_eq!(ea.1.title, eb.1.title);
        assert_eq!(ea.1.color, eb.1.color);
        assert_eq!(ea.1.section, eb.1.section);
        assert_eq!(ea.1.grade, eb.1.grade);
        assert_eq!(ea.1.retired, eb.1.retired);
        assert_eq!(ea.1.ticks, eb.1.ticks);
    }
    assert_eq!(a.settings.colors.len(), b.settings.colors.len());
    assert_eq!(a.settings.sections.len(), b.settings.sections.len());
    assert_eq!(a.settings.grades.len(), b.settings.grades.len());
    for (ca, cb) in a.settings.grades.iter().zip(b.settings.grades.iter()) {
        assert_eq!(ca.0, cb.0);
        assert_eq!(ca.1.group, cb.1.group);
        assert_eq!(ca.1.label, cb.1.label);
        assert_eq!(ca.1.sort, cb.1.sort);
    }
}

#[test]
fn round_trip_reproduces_the_snapshot() {
    let s = populated();
    let text = export_json(&s);
    let back = import_json(&text).expect("the export must import");
    assert_same(&s, &back);
    assert_eq!(export_json(&back), text);
}

#[test]
fn round_trip_of_the_empty_default() {
    let s = Snapshot::new_default();
    let text = export_json(&s);
    let back = import_json(&text).expect("the export must import");
    assert_same(&s, &back);
}

#[test]
fn malformed_json_is_rejected() {
    assert!(import_json("").is_none());
    assert!(import_json("{").is_none());
    assert!(import_json("nonsense").is_none());
    assert!(import_json("{\"routes\":{").is_none());
    let s = populated();
    let mut text = export_json(&s);
    text.push('x');
    assert!(import_json(&text).is_none());
}

#[test]
fn export_of_a_small_snapshot_is_exact() {
    let mut s = Snapshot::new_default();
    s.settings.colors.truncate(1);
    s.settings.sections.truncate(1);
    s.settings.grades.truncate(1);
    s.insert_route(5, "a\"b".to_string(), "red".to_string(), "AB1".to_string(), "5".to_string());
    s.record_tick(5, TickKind::Ascent, -7);
    let text = export_json(&s);
    let expected = "{\"routes\":{\"5\":{\"title\":\"a\\\"b\",\"color\":\"red\",\"section\":\"AB1\",\"grade\":\"5\",\"ticks\":[{\"kind\":0,\"timestamp\":-7}],\"retired\":false}},\"settings\":{\"colors\":{\"red\":{\"group\":\"A\",\"label\":\"red\",\"sort\":1}},\"sections\":{\"AB1\":{\"group\":\"A\",\"label\":\"AB1\",\"sort\":1}},\"grades\":{\"5\":{\"group\":\"A\",\"label\":\"5\",\"sort\":1}}}}";
    assert_eq!(text, expected);
}

#[test]
fn export_is_json_that_serde_agrees_with() {
    let s = populated();
    let text = export_json(&s);
    let v: serde_json::Value = serde_json::from_str(&text).expect("valid JSON");
    assert_eq!(v["routes"]["7"]["title"].as_str().unwrap(), "slab \"classic\"");
    assert_eq!(v["routes"]["7"]["ticks"][0]["kind"].as_i64().unwrap(), 1);
    assert_eq!(v["routes"]["7"]["ticks"][0]["timestamp"].as_i64().unwrap(), -12345);
    assert_eq!(v["routes"]["7"]["ticks"][1]["kind"].as_i64().unwrap(), 0);
    assert_eq!(v["routes"]["42"]["retired"].as_bool().unwrap(), true);
    assert_eq!(v["routes"]["42"]["title"].as_str().unwrap(), "back\\slash\nand tab\t");
    assert_eq!(v["routes"]["42"]["ticks"][0]["timestamp"].as_i64().unwrap(), i64::MIN);
    assert_eq!(v["routes"]["42"]["ticks"][1]["timestamp"].as_i64().unwrap(), i64::MAX);
    assert_eq!(v["settings"]["colors"]["red"]["sort"].as_i64().unwrap(), 1);
    assert_eq!(v["settings"]["sections"]["AB2"]["label"].as_str().unwrap(), "MAP");
    assert_eq!(v["settings"]["grades"]["V7"]["sort"].as_i64().unwrap(), 24);
}

#[test]
fn control_characters_round_trip() {
    let mut s = Snapshot::new_default();
    let odd = "\u{1}\u{2}\u{1f}\u{7f} end\u{0}".to_string();
    s.insert_route(1, odd.clone(), "red".to_string(), "AB1".to_string(), "5".to_string());
    let text = export_json(&s);
    let back = import_json(&text).expect("the export must import");
    assert_eq!(back.routes[0].1.title, odd);
    let v: serde_json::Value = serde_json::from_str(&text).expect("valid JSON");
    assert_eq!(v["routes"]["1"]["title"].as_str().unwrap(), odd);
}

#[test]
fn import_through_the_dispatcher_replaces_the_snapshot() {
    let s = populated();
    let text = export_json(&s);
    let mut t = Snapshot::new_default();
    t.apply(gymticks::dispatch::Command::ImportData { json: text });
    assert_same(&s, &t);
}
