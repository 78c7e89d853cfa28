use docuum::failure::Failure;
use docuum::image::{ImageNode, ImageRecord, NodeEntry, RepositoryTag};
use docuum::plan::plan_eviction;
use regex::RegexSet;

fn node(id: &str, repository: &str, last_used_since_epoch: u64, ancestors: usize) -> NodeEntry {
    NodeEntry {
        id: String::from(id),
        node: ImageNode {
            image_record: ImageRecord {
                parent_id: None,
                created_since_epoch: 0,
                repository_tags: vec![RepositoryTag {
                    repository: String::from(repository),
                    tag: String::from("latest"),
                }],
            },
            last_used_since_epoch,
            ancestors,
        },
    }
}

fn candidate_ids(forest: &Vec<NodeEntry>, keep: Option<&RegexSet>, min_age: Option<u64>, now: u64) -> Vec<String> {
    plan_eviction(forest, keep, min_age, now)
        .unwrap()
        .into_iter()
        .map(|c| c.id)
        .collect()
}

#[test]
fn plan_orders_least_recently_used_first() {
    let forest = vec![node("id-2", "c", 30, 0), node("id-0", "a", 10, 0), node("id-1", "b", 20, 0)];
    let ids = candidate_ids(&forest, None, None, 1000);
    assert_eq!(vec!["id-0", "id-1", "id-2"], ids);
}

#[test]
fn plan_breaks_ties_by_descending_ancestor_count() {
    // Equally stale images leave deepest-first.
    let forest = vec![
        node("id-base", "base", 50, 0),
        node("id-mid", "mid", 50, 1),
        node("id-leaf", "leaf", 50, 2),
    ];
    let ids = candidate_ids(&forest, None, None, 1000);
    assert_eq!(vec!["id-leaf", "id-mid", "id-base"], ids);
}

#[test]
fn plan_keep_pattern_excludes_matching_image() {
    // The stalest image matches the keep pattern by its only label, so it
    // never becomes a candidate, however stale it is.
    let keep = RegexSet::new(["^alpine:"]).unwrap();
    let forest = vec![node("id-kept", "alpine", 1, 0), node("id-other", "debian", 99, 0)];
    let ids = candidate_ids(&forest, Some(&keep), None, 1000);
    assert_eq!(vec!["id-other"], ids);
}

#[test]
fn plan_keep_pattern_matches_full_label() {
    // The pattern is matched against `repository:tag`, not the repository
    // alone.
    let keep = RegexSet::new(["^debian:latest$"]).unwrap();
    let forest = vec![node("id-0", "debian", 1, 0)];
    let ids = candidate_ids(&forest, Some(&keep), None, 1000);
    assert!(ids.is_empty());
}

#[test]
fn plan_min_age_excludes_recently_used_image() {
    // now = 1000, min_age = 100: images used after 900 are protected.
    let forest = vec![node("id-old", "a", 900, 0), node("id-new", "b", 901, 0)];
    let ids = candidate_ids(&forest, None, Some(100), 1000);
    assert_eq!(vec!["id-old"], ids);
}

#[test]
fn plan_min_age_past_epoch_is_rejected() {
    let forest = vec![node("id-0", "a", 0, 0)];
    let r = plan_eviction(&forest, None, Some(2000), 1000);
    assert!(matches!(r, Err(Failure::User(_, _))));
}

#[test]
fn failure_message_without_source() {
    let f = Failure::User(String::from("Bad input."), None);
    assert_eq!("Bad input.", f.message());
}

#[test]
fn failure_message_with_source() {
    let f = Failure::_System(String::from("Query failed."), Some(String::from("timed out")));
    assert_eq!("Query failed. Reason: timed out", f.message());
}
