use nightwatch::data::{AppData, WatchedItemData};
use nightwatch::store::{load_app_data, save_app_data};

fn item(id: i32, name: &str, url: &str, price: &str, ts: &str) -> WatchedItemData {
    WatchedItemData {
        id,
        name: name.to_string(),
        url: url.to_string(),
        current_price: price.to_string(),
        last_updated: ts.to_string(),
    }
}

#[test]
fn add_assigns_id_and_placeholder_fields() {
    let mut d = AppData::empty();
    d.add_with_time(
        "ACME".to_string(),
        "http://acme.example".to_string(),
        "2024-01-01 00:00".to_string(),
    );
    assert_eq!(d.items.len(), 1);
    assert_eq!(d.items[0].id, 0);
    assert_eq!(d.items[0].name, "ACME");
    assert_eq!(d.items[0].url, "http://acme.example");
    assert_eq!(d.items[0].current_price, "Fetching...");
    assert_eq!(d.items[0].last_updated, "2024-01-01 00:00");
    assert_eq!(d.next_id, 1);
    d.remove(0);
    assert_eq!(d.items.len(), 0);
    assert_eq!(d.next_id, 1);
}

#[test]
fn add_yields_increasing_unique_ids() {
    let mut d = AppData::empty();
    for k in 0..5 {
        d.add_with_time(format!("item{}", k), format!("http://x{}", k), "t".to_string());
    }
    assert_eq!(d.next_id, 5);
    let ids: Vec<i32> = d.items.iter().map(|it| it.id).collect();
    assert_eq!(ids, vec![0, 1, 2, 3, 4]);
    for a in 0..ids.len() {
        for b in (a + 1)..ids.len() {
            assert!(ids[a] < ids[b]);
        }
    }
}

#[test]
fn remove_absent_id_changes_nothing() {
    let mut d = AppData::empty();
    d.add_with_time("a".to_string(), "u1".to_string(), "t1".to_string());
    d.add_with_time("b".to_string(), "u2".to_string(), "t2".to_string());
    let before = save_app_data(&d);
    d.remove(99);
    let after = save_app_data(&d);
    assert_eq!(before, after);
    assert_eq!(d.items.len(), 2);
    assert_eq!(d.next_id, 2);
}

#[test]
fn remove_keeps_order_of_the_rest() {
    let mut d = AppData::empty();
    d.add_with_time("a".to_string(), "u1".to_string(), "t".to_string());
    d.add_with_time("b".to_string(), "u2".to_string(), "t".to_string());
    d.add_with_time("c".to_string(), "u3".to_string(), "t".to_string());
    d.remove(1);
    assert_eq!(d.items.len(), 2);
    assert_eq!(d.items[0].name, "a");
    assert_eq!(d.items[1].name, "c");
    assert_eq!(d.next_id, 3);
}

#[test]
fn refresh_changes_only_price_and_timestamp() {
    let mut d = AppData::empty();
    d.add_with_time("a".to_string(), "u1".to_string(), "t1".to_string());
    d.add_with_time("b".to_string(), "u2".to_string(), "t2".to_string());
    d.refresh_with_time(1, "t9".to_string());
    assert_eq!(d.items[0].name, "a");
    assert_eq!(d.items[0].current_price, "Fetching...");
    assert_eq!(d.items[0].last_updated, "t1");
    assert_eq!(d.items[1].id, 1);
    assert_eq!(d.items[1].name, "b");
    assert_eq!(d.items[1].url, "u2");
    assert_eq!(d.items[1].current_price, "Updated");
    assert_eq!(d.items[1].last_updated, "t9");
    assert_eq!(d.next_id, 2);
}

#[test]
fn refresh_absent_id_changes_nothing() {
    let mut d = AppData::empty();
    d.add_with_time("a".to_string(), "u1".to_string(), "t1".to_string());
    d.refresh_with_time(7, "t9".to_string());
    assert_eq!(d.items[0].current_price, "Fetching...");
    assert_eq!(d.items[0].last_updated, "t1");
}

#[test]
fn save_empty_has_exact_text() {
    let d = AppData::empty();
    let s = save_app_data(&d);
    assert_eq!(s, "{\n  \"items\": [],\n  \"next_id\": 0\n}");
}

#[test]
fn save_one_item_has_exact_text() {
    let d = AppData { items: vec![item(0, "A", "u", "Fetching...", "T")], next_id: 1 };
    let s = save_app_data(&d);
    let expected = "{\n  \"items\": [\n    {\n      \"id\": 0,\n      \"name\": \"A\",\n      \"url\": \"u\",\n      \"current_price\": \"Fetching...\",\n      \"last_updated\": \"T\"\n    }\n  ],\n  \"next_id\": 1\n}";
    assert_eq!(s, expected);
}

#[test]
fn save_load_round_trips() {
    let mut d = AppData::empty();
    d.add_with_time("ACME".to_string(), "http://acme.example".to_string(), "t1".to_string());
    d.add_with_time("Beta".to_string(), "http://beta.example".to_string(), "t2".to_string());
    d.remove(0);
    d.add_with_time("Gamma".to_string(), "http://gamma.example".to_string(), "t3".to_string());
    let text = save_app_data(&d);
    let back = load_app_data(Some(&text));
    assert_eq!(back.next_id, d.next_id);
    assert_eq!(back.items.len(), d.items.len());
    for k in 0..d.items.len() {
        assert_eq!(back.items[k].id, d.items[k].id);
        assert_eq!(back.items[k].name, d.items[k].name);
        assert_eq!(back.items[k].url, d.items[k].url);
        assert_eq!(back.items[k].current_price, d.items[k].current_price);
        assert_eq!(back.items[k].last_updated, d.items[k].last_updated);
    }
}

#[test]
fn round_trip_keeps_special_characters() {
    let d = AppData {
        items: vec![
            item(0, "quote \" and \\ backslash", "http://a/?q=1&r=2", "x\ny", "tab\there"),
            item(3, "caf\u{e9} \u{1f600}", "http://\u{fc}.example", "\r", " spaced "),
        ],
        next_id: 4,
    };
    let text = save_app_data(&d);
    let back = load_app_data(Some(&text));
    assert_eq!(back.next_id, 4);
    assert_eq!(back.items.len(), 2);
    for k in 0..2 {
        assert_eq!(back.items[k].id, d.items[k].id);
        assert_eq!(back.items[k].name, d.items[k].name);
        assert_eq!(back.items[k].url, d.items[k].url);
        assert_eq!(back.items[k].current_price, d.items[k].current_price);
        assert_eq!(back.items[k].last_updated, d.items[k].last_updated);
    }
}

#[test]
fn round_trip_keeps_negative_ids() {
    let d = AppData { items: vec![item(-5, "n", "u", "p", "t"), item(2147483646, "m", "v", "q", "s")], next_id: 2147483647 };
    let text = save_app_data(&d);
    let back = load_app_data(Some(&text));
    assert_eq!(back.items.len(), 2);
    assert_eq!(back.items[0].id, -5);
    assert_eq!(back.items[1].id, 2147483646);
    assert_eq!(back.next_id, 2147483647);
}

#[test]
fn missing_content_yields_default() {
    let d = load_app_data(None);
    assert_eq!(d.items.len(), 0);
    assert_eq!(d.next_id, 0);
}

#[test]
fn malformed_content_yields_default() {
    for bad in [
        "",
        "not json",
        "{",
        "{\"items\": [], \"next_id\": }",
        "{\"items\": [1,2], \"next_id\": 0}",
        "{\"items\": [], \"next_id\": 0} trailing",
        "{\"items\": [{\"id\": 0}], \"next_id\": 1}",
        "[]",
    ] {
        let d = load_app_data(Some(bad));
        assert_eq!(d.items.len(), 0, "content {:?} should yield the default", bad);
        assert_eq!(d.next_id, 0, "content {:?} should yield the default", bad);
    }
}

#[test]
fn oversized_counter_yields_default() {
    let d = load_app_data(Some("{\"items\": [], \"next_id\": 99999999999}"));
    assert_eq!(d.items.len(), 0);
    assert_eq!(d.next_id, 0);
}

#[test]
fn invariant_breaking_content_yields_default() {
    let dup = "{\"items\": [{\"id\": 1, \"name\": \"a\", \"url\": \"u\", \"current_price\": \"p\", \"last_updated\": \"t\"},{\"id\": 1, \"name\": \"b\", \"url\": \"v\", \"current_price\": \"q\", \"last_updated\": \"s\"}], \"next_id\": 5}";
    let d = load_app_data(Some(dup));
    assert_eq!(d.items.len(), 0);
    assert_eq!(d.next_id, 0);
    let high = "{\"items\": [{\"id\": 9, \"name\": \"a\", \"url\": \"u\", \"current_price\": \"p\", \"last_updated\": \"t\"}], \"next_id\": 3}";
    let d2 = load_app_data(Some(high));
    assert_eq!(d2.items.len(), 0);
    assert_eq!(d2.next_id, 0);
}

#[test]
fn whitespace_variations_still_load() {
    let text = " {\n\t\"items\" : [ ] ,\n \"next_id\" :\t42\n } ";
    let d = load_app_data(Some(text));
    assert_eq!(d.items.len(), 0);
    assert_eq!(d.next_id, 42);
}

#[test]
fn valid_handwritten_item_loads() {
    let text = "{\"items\": [{\"id\": 7, \"name\": \"A\\\"B\", \"url\": \"u\", \"current_price\": \"p\", \"last_updated\": \"t\"}], \"next_id\": 8}";
    let d = load_app_data(Some(text));
    assert_eq!(d.items.len(), 1);
    assert_eq!(d.items[0].id, 7);
    assert_eq!(d.items[0].name, "A\"B");
    assert_eq!(d.next_id, 8);
}

#[test]
fn list_returns_snapshot_in_order() {
    let mut d = AppData::empty();
    d.add_with_time("a".to_string(), "u1".to_string(), "t".to_string());
    d.add_with_time("b".to_string(), "u2".to_string(), "t".to_string());
    let snap = d.list();
    assert_eq!(snap.len(), 2);
    assert_eq!(snap[0].name, "a");
    assert_eq!(snap[1].name, "b");
    assert_eq!(d.items.len(), 2);
}

#[test]
fn add_with_host_clock_fills_placeholder() {
    let mut d = AppData::empty();
    d.add("Live".to_string(), "http://live.example".to_string());
    assert_eq!(d.items.len(), 1);
    assert_eq!(d.items[0].id, 0);
    assert_eq!(d.items[0].name, "Live");
    assert_eq!(d.items[0].current_price, "Fetching...");
    assert_eq!(d.next_id, 1);
}

#[test]
fn refresh_with_host_clock_updates_price() {
    let mut d = AppData::empty();
    d.add_with_time("a".to_string(), "u".to_string(), "old".to_string());
    d.refresh(0);
    assert_eq!(d.items[0].current_price, "Updated");
}

#[test]
fn members_load_in_any_order() {
    let text = "{\"next_id\": 8, \"items\": [{\"url\": \"u\", \"last_updated\": \"t\", \"id\": 7, \"current_price\": \"p\", \"name\": \"A\"}]}";
    let d = load_app_data(Some(text));
    assert_eq!(d.items.len(), 1);
    assert_eq!(d.items[0].id, 7);
    assert_eq!(d.items[0].name, "A");
    assert_eq!(d.items[0].url, "u");
    assert_eq!(d.items[0].current_price, "p");
    assert_eq!(d.items[0].last_updated, "t");
    assert_eq!(d.next_id, 8);
}

#[test]
fn duplicate_member_yields_default() {
    let text = "{\"items\": [], \"items\": [], \"next_id\": 1}";
    let d = load_app_data(Some(text));
    assert_eq!(d.items.len(), 0);
    assert_eq!(d.next_id, 0);
    let text2 = "{\"items\": [{\"id\": 0, \"id\": 1, \"name\": \"a\", \"url\": \"u\", \"current_price\": \"p\", \"last_updated\": \"t\"}], \"next_id\": 2}";
    let d2 = load_app_data(Some(text2));
    assert_eq!(d2.items.len(), 0);
    assert_eq!(d2.next_id, 0);
}

#[test]
fn unknown_member_yields_default() {
    let text = "{\"items\": [], \"next_id\": 1, \"extra\": 5}";
    let d = load_app_data(Some(text));
    assert_eq!(d.items.len(), 0);
    assert_eq!(d.next_id, 0);
}

#[test]
fn missing_member_yields_default() {
    let d = load_app_data(Some("{\"next_id\": 3}"));
    assert_eq!(d.next_id, 0);
    let d2 = load_app_data(Some(
        "{\"items\": [{\"id\": 0, \"name\": \"a\", \"url\": \"u\", \"current_price\": \"p\"}], \"next_id\": 1}",
    ));
    assert_eq!(d2.items.len(), 0);
}

#[test]
fn unicode_escapes_load() {
    let text = "{\"items\": [{\"id\": 0, \"name\": \"a\\u0001b\\u001fc\", \"url\": \"x\\by\\fz\", \"current_price\": \"p\\/q\", \"last_updated\": \"t\"}], \"next_id\": 1}";
    let d = load_app_data(Some(text));
    assert_eq!(d.items.len(), 1);
    assert_eq!(d.items[0].name, "a\u{0001}b\u{001f}c");
    assert_eq!(d.items[0].url, "x\u{0008}y\u{000c}z");
    assert_eq!(d.items[0].current_price, "p/q");
}

#[test]
fn control_characters_are_escaped_on_save() {
    let d = AppData { items: vec![item(0, "a\u{0001}b", "u", "p", "t")], next_id: 1 };
    let text = save_app_data(&d);
    assert!(text.contains("a\\u0001b"));
    let back = load_app_data(Some(&text));
    assert_eq!(back.items[0].name, "a\u{0001}b");
}
