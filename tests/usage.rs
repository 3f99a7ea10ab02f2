use sky_menu::usage::{usage_bonus, UsageCount};

#[test]
fn missing_name_counts_zero() {
    let u = UsageCount::new();
    assert_eq!(u.get("Firefox"), 0);
}

#[test]
fn set_inc_and_get() {
    let mut u = UsageCount::new();
    let doc = u.set("Firefox", 3);
    assert_eq!(doc, "{\"Firefox\":3}");
    assert_eq!(u.get("Firefox"), 3);
    let doc = u.inc("Firefox");
    assert_eq!(u.get("Firefox"), 4);
    assert_eq!(doc, "{\"Firefox\":4}");
    u.inc("Alacritty");
    assert_eq!(u.get("Alacritty"), 1);
    assert_eq!(u.to_json(), "{\"Alacritty\":1,\"Firefox\":4}");
}

#[test]
fn inc_saturates_at_the_largest_count() {
    let mut u = UsageCount::new();
    u.set("A", u64::MAX);
    u.inc("A");
    assert_eq!(u.get("A"), u64::MAX);
}

#[test]
fn empty_store_serialises_to_empty_object() {
    assert_eq!(UsageCount::new().to_json(), "{}");
}

#[test]
fn loads_a_document() {
    let u = UsageCount::from_json("{\"Vim\": 7, \"Firefox\": 2}");
    assert_eq!(u.get("Vim"), 7);
    assert_eq!(u.get("Firefox"), 2);
    assert_eq!(u.get("Other"), 0);
}

#[test]
fn malformed_document_gives_empty_store() {
    let u = UsageCount::from_json("not json");
    assert_eq!(u.get("Vim"), 0);
    let u = UsageCount::from_json("{\"Vim\": -1}");
    assert_eq!(u.get("Vim"), 0);
    assert_eq!(u.to_json(), "{}");
}

#[test]
fn bonus_is_five_per_launch_capped_at_fifty() {
    assert_eq!(usage_bonus(0), 0);
    assert_eq!(usage_bonus(1), 5);
    assert_eq!(usage_bonus(9), 45);
    assert_eq!(usage_bonus(10), 50);
    assert_eq!(usage_bonus(11), 50);
    assert_eq!(usage_bonus(u64::MAX), 50);
}
