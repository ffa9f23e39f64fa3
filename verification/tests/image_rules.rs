use std::collections::HashSet;
use trimimages::engine::evict_from;
use trimimages::image::{Eviction, ImageEntry, Images};
use trimimages::version::{parser, Version};

fn read(tag: &str) -> Version {
    parser().unwrap().parse(tag).unwrap()
}

fn catalog(listing: &[(&str, &[&str])]) -> Images {
    let mut images = Images::new();
    for (repository, tags) in listing {
        for (n, tag) in tags.iter().enumerate() {
            images.insert(repository, ImageEntry { id: format!("id{}", n), ver: read(tag) });
        }
    }
    images
}

fn evicted(images: &Images, canonical: usize, snapshot: usize) -> Vec<String> {
    images.delete(canonical, snapshot).iter().map(|e| format!("{}:{}", e.repository, e.version.to_string())).collect()
}

#[test]
fn keeping_nothing_evicts_everything() {
    let images = catalog(&[
        ("a", &["1.0", "1.1-SNAPSHOT", "1.0-BR", "0.9-BR-SNAPSHOT"]),
        ("b", &["2"]),
    ]);
    assert_eq!(evicted(&images, 0, 0), vec!["a:1.0", "a:1.1-SNAPSHOT", "a:1.0-BR", "a:0.9-BR-SNAPSHOT", "b:2"]);
}

#[test]
fn keeping_no_snapshot_evicts_every_snapshot() {
    let images = catalog(&[("a", &["1.0", "1.1-SNAPSHOT", "1.0-BR", "0.9-BR-SNAPSHOT", "1.2-SNAPSHOT"])]);
    assert_eq!(evicted(&images, 5, 0), vec!["a:1.1-SNAPSHOT", "a:0.9-BR-SNAPSHOT", "a:1.2-SNAPSHOT"]);
    assert_eq!(evicted(&images, 0, 5), vec!["a:1.0", "a:1.0-BR"]);
}

#[test]
fn a_bucket_within_its_limit_loses_nothing() {
    let images = catalog(&[("a", &["1.0", "1.1", "1.2", "1.0-SNAPSHOT"]), ("b", &[])]);
    assert_eq!(evicted(&images, 3, 1).len(), 0);
    assert_eq!(evicted(&images, 10, 10).len(), 0);
    assert_eq!(Images::new().delete(3, 1).len(), 0);
}

#[test]
fn the_oldest_of_a_bucket_go() {
    let images = catalog(&[("a", &["1.10", "1.2", "1.9", "1.1", "1.3"])]);
    let gone: HashSet<String> = evicted(&images, 2, 1).into_iter().collect();
    let expected: HashSet<String> = ["a:1.1", "a:1.2", "a:1.3"].iter().map(|s| s.to_string()).collect();
    assert_eq!(gone, expected);
}

#[test]
fn evictions_come_in_the_order_of_overflow() {
    let images = catalog(&[("a", &["5", "3", "1"])]);
    assert_eq!(evicted(&images, 1, 1), vec!["a:3", "a:1"]);
    let other = catalog(&[("a", &["1", "3", "5"])]);
    assert_eq!(evicted(&other, 1, 1), vec!["a:1", "a:3"]);
}

#[test]
fn order_of_arrival_does_not_change_what_goes() {
    let tags = ["1.0", "1.1", "1.10", "1.2", "1.2-SNAPSHOT", "1.1-SNAPSHOT", "1.2.0-BR123", "1.2.1-BR123"];
    let forward = catalog(&[("r", &tags)]);
    let mut reversed_tags = tags;
    reversed_tags.reverse();
    let backward = catalog(&[("r", &reversed_tags)]);
    for (canonical, snapshot) in [(0, 0), (1, 1), (2, 1), (3, 0), (1, 3)] {
        let a: HashSet<String> = evicted(&forward, canonical, snapshot).into_iter().collect();
        let b: HashSet<String> = evicted(&backward, canonical, snapshot).into_iter().collect();
        assert_eq!(a, b);
    }
}

#[test]
fn a_second_run_evicts_the_same() {
    let images = catalog(&[("a", &["1.0", "1.1", "1.2", "1.3", "1.0-SNAPSHOT", "1.1-SNAPSHOT"]), ("b", &["1", "2"])]);
    let first = evicted(&images, 2, 1);
    let second = evicted(&images, 2, 1);
    assert_eq!(first, second);
    assert_eq!(first, vec!["a:1.0", "a:1.1", "a:1.0-SNAPSHOT"]);
}

#[test]
fn no_version_is_evicted_twice() {
    let images = catalog(&[("a", &["3", "1", "2", "5", "4", "0"]), ("b", &["3", "1", "2"])]);
    let gone = evicted(&images, 1, 1);
    let set: HashSet<String> = gone.iter().cloned().collect();
    assert_eq!(gone.len(), set.len());
    assert_eq!(gone.len(), 7);
}

#[test]
fn repositories_are_judged_apart() {
    let images = catalog(&[("a", &["1", "2"]), ("b", &["1", "2"]), ("c", &["3"])]);
    assert_eq!(evicted(&images, 1, 1), vec!["a:1", "b:1"]);
}

#[test]
fn branches_are_judged_apart() {
    let images = catalog(&[("a", &["1-x", "2-x", "1-y", "1", "2-y-SNAPSHOT", "1-y-SNAPSHOT"])]);
    assert_eq!(evicted(&images, 1, 1), vec!["a:1-x", "a:1-y-SNAPSHOT"]);
}

#[test]
fn the_later_image_of_a_version_stays() {
    let mut images = Images::new();
    images.insert("a", ImageEntry { id: "first".to_string(), ver: read("1.2") });
    images.insert("a", ImageEntry { id: "other".to_string(), ver: read("1.3") });
    images.insert("a", ImageEntry { id: "second".to_string(), ver: read("v1.2") });
    let found = images.find("a", &read("1.2")).unwrap();
    assert_eq!(found.id, "second");
    assert_eq!(found.ver.raw, "v1.2");
    assert_eq!(evicted(&images, 0, 0), vec!["a:v1.2", "a:1.3"]);
}

#[test]
fn find_looks_in_one_repository() {
    let images = catalog(&[("a", &["1", "2"]), ("b", &["3"])]);
    assert_eq!(images.find("a", &read("2")).unwrap().id, "id1");
    assert_eq!(images.find("b", &read("3")).unwrap().id, "id0");
    assert_eq!(images.find("b", &read("2")).is_none(), true);
    assert_eq!(images.find("c", &read("1")).is_none(), true);
    assert_eq!(images.find("a", &read("2-SNAPSHOT")).is_none(), true);
}

#[test]
fn images_are_equal_by_version() {
    let a = ImageEntry { id: "x".to_string(), ver: read("1.2") };
    let b = ImageEntry { id: "y".to_string(), ver: read("v1.2") };
    let c = ImageEntry { id: "x".to_string(), ver: read("1.3") };
    assert_eq!(a == b, true);
    assert_eq!(a == c, false);
    let mut set = HashSet::new();
    set.insert(a);
    set.insert(b);
    set.insert(c);
    assert_eq!(set.len(), 2);
}

#[test]
fn running_the_engine_leaves_the_catalog() {
    let images = catalog(&[("a", &["1", "2", "3"])]);
    assert_eq!(evicted(&images, 1, 1), vec!["a:1", "a:2"]);
    assert_eq!(images.find("a", &read("1")).is_some(), true);
    assert_eq!(evicted(&images, 2, 1), vec!["a:1"]);
}

#[test]
fn a_run_after_the_evictions_finds_nothing_to_evict() {
    let tags = ["1.0", "1.1", "1.10", "1.2", "1.2-SNAPSHOT", "1.1-SNAPSHOT", "3-x", "1-x", "2-x"];
    let images = catalog(&[("r", &tags)]);
    let gone: HashSet<String> = evicted(&images, 2, 1).into_iter().collect();
    assert_eq!(gone.len(), 4);
    let mut trimmed = Images::new();
    for tag in tags {
        if !gone.contains(&format!("r:{}", tag)) {
            trimmed.insert("r", ImageEntry { id: String::new(), ver: read(tag) });
        }
    }
    assert_eq!(evicted(&trimmed, 2, 1).len(), 0);
}

#[test]
fn what_goes_is_older_than_what_stays() {
    let tags = ["4", "9", "2", "7", "1", "8", "3"];
    let images = catalog(&[("r", &tags)]);
    let gone = evicted(&images, 3, 1);
    let gone_set: HashSet<String> = gone.iter().cloned().collect();
    for tag in tags {
        let stays = !gone_set.contains(&format!("r:{}", tag));
        assert_eq!(stays, ["9", "8", "7"].contains(&tag), "{}", tag);
    }
}

#[test]
fn one_repository_is_run_by_itself() {
    let entries: Vec<ImageEntry> = ["2", "1", "3", "1-SNAPSHOT", "v2", "0"]
        .iter()
        .map(|tag| ImageEntry { id: tag.to_string(), ver: read(tag) })
        .collect();
    let first = read("9");
    let mut out = vec![Eviction { repository: "before", version: &first }];
    evict_from("r", &entries, 2, 0, &mut out);
    let told: Vec<String> = out.iter().map(|e| format!("{}:{}", e.repository, e.version.to_string())).collect();
    assert_eq!(told, vec!["before:9", "r:1", "r:1-SNAPSHOT", "r:0"]);
}
