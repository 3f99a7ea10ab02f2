use sky_menu::entry::Entry;
use sky_menu::rank::{rank, rank_scored};
use sky_menu::usage::UsageCount;

fn app(name: &str) -> Entry {
    Entry::new(name.into(), "".into(), name.to_lowercase(), "".into())
}

fn names(v: &[Entry]) -> Vec<String> {
    v.iter().map(|e| e.name.clone()).collect()
}

#[test]
fn empty_query_orders_by_usage_then_position() {
    let cands = vec![app("A"), app("B"), app("C")];
    let mut u = UsageCount::new();
    u.set("C", 2);
    u.set("B", 1);
    let r = rank(&cands, "", &u);
    assert_eq!(names(&r), vec!["C", "B", "A"]);
}

#[test]
fn query_filters_by_fuzzy_score() {
    let cands = vec![app("Terminal"), app("Firefox"), app("Files")];
    let u = UsageCount::new();
    let r = rank(&cands, "fire", &u);
    assert_eq!(r[0].name, "Firefox");
    assert_eq!(r.len(), 3);
}

#[test]
fn scores_and_bonus_add_up() {
    let cands = vec![app("A"), app("B"), app("C")];
    let mut u = UsageCount::new();
    u.set("A", 100);
    let r = rank_scored(&cands, &vec![Some(10), None, Some(55)], &u);
    assert_eq!(names(&r), vec!["A", "C", "B"]);
    let r = rank_scored(&cands, &vec![Some(10), None, Some(61)], &u);
    assert_eq!(names(&r), vec!["C", "A", "B"]);
}

#[test]
fn result_is_truncated_to_nine() {
    let cands: Vec<Entry> = (0..12).map(|i| app(&format!("app{}", i))).collect();
    let u = UsageCount::new();
    let r = rank(&cands, "", &u);
    assert_eq!(r.len(), 9);
    assert_eq!(r[0].name, "app0");
    assert_eq!(r[8].name, "app8");
}

#[test]
fn ranking_twice_gives_same_order() {
    let cands = vec![app("Vim"), app("Vivaldi"), app("VLC"), app("Steam")];
    let u = UsageCount::new();
    assert_eq!(rank(&cands, "v", &u), rank(&cands, "v", &u));
}

#[test]
fn more_launches_never_move_a_candidate_down() {
    let cands = vec![app("B"), app("A")];
    let mut u = UsageCount::new();
    let before = rank_scored(&cands, &vec![Some(5), Some(5)], &u);
    assert_eq!(names(&before), vec!["B", "A"]);
    u.set("A", 1);
    let after = rank_scored(&cands, &vec![Some(5), Some(5)], &u);
    assert_eq!(names(&after), vec!["A", "B"]);
    u.set("A", 50);
    // Fifty launches are worth no more than ten: 5 + 50 stays below 60.
    let capped = rank_scored(&cands, &vec![Some(60), Some(5)], &u);
    assert_eq!(names(&capped), vec!["B", "A"]);
}

#[test]
fn empty_candidates_rank_empty() {
    let u = UsageCount::new();
    assert!(rank(&vec![], "x", &u).is_empty());
}

#[test]
fn empty_query_ranks_as_all_zero_scores() {
    let cands = vec![app("Vim"), app("Firefox"), app("Files"), app("Terminal")];
    let mut u = UsageCount::new();
    u.set("Files", 3);
    u.set("Terminal", 1);
    let zero = vec![Some(0); cands.len()];
    assert_eq!(rank(&cands, "", &u), rank_scored(&cands, &zero, &u));
    assert_eq!(names(&rank(&cands, "", &u)), vec!["Files", "Terminal", "Vim", "Firefox"]);
}

#[test]
fn raising_a_count_keeps_both_displayed() {
    let cands: Vec<Entry> = (0..12).map(|i| app(&format!("app{}", i))).collect();
    let mut u = UsageCount::new();
    let before = rank(&cands, "", &u);
    assert_eq!(before[7].name, "app7");
    assert_eq!(before[8].name, "app8");
    u.set("app8", 1);
    let after = rank(&cands, "", &u);
    let a = after.iter().position(|e| e.name == "app8").unwrap();
    let b = after.iter().position(|e| e.name == "app7").unwrap();
    assert!(a < b && b <= 8);
}
