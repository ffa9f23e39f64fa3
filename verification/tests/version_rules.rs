use std::cmp::Ordering;
use std::collections::HashSet;
use trimimages::version::{parser, Version};

fn read(tag: &str) -> Version {
    parser().unwrap().parse(tag).unwrap()
}

#[test]
fn raw_text_is_kept() {
    for tag in ["1", "v1", "V1.2", "1.2.3", "1.2.3-SNAPSHOT", "8-sdk", "1.2-BR102-SNAPSHOT", "00001.00002"] {
        let v = read(tag);
        assert_eq!(v.raw, tag);
        assert_eq!(v.to_string(), tag);
    }
}

#[test]
fn reading_twice_gives_the_same_version() {
    let p = parser().unwrap();
    let a = p.parse("v1.22.333-rc1-SNAPSHOT").unwrap();
    let b = p.parse("v1.22.333-rc1-SNAPSHOT").unwrap();
    assert_eq!(a, b);
    assert_eq!(a.raw, b.raw);
    assert_eq!((a.major, a.minor, a.patch), (1, 22, 333));
    assert_eq!(a.branch, Some("rc1".to_string()));
    assert_eq!(a.is_snapshot, true);
}

#[test]
fn strings_outside_the_grammar_give_no_version() {
    let p = parser().unwrap();
    for tag in [
        "", "latest", "v", "V", "vv1", "a1", " 1", "1 ", "1.", "1.x", "1..2", "1.2.", "1.2.3.4",
        "123456", "1.123456", "1.2.123456", "1_2", "-1", "-SNAPSHOT", "1.2\n", "1-a\nb", "1.2+build",
    ] {
        assert_eq!(p.parse(tag).is_none(), true, "{:?}", tag);
    }
}

#[test]
fn digits_outside_ascii_give_no_version() {
    let p = parser().unwrap();
    assert_eq!(p.parse("\u{661}").is_none(), true);
    assert_eq!(p.parse("1.\u{662}").is_none(), true);
    assert_eq!(p.parse("1.2.\u{0969}").is_none(), true);
}

#[test]
fn five_digits_are_read() {
    let v = read("99999.99999.99999");
    assert_eq!((v.major, v.minor, v.patch), (99999, 99999, 99999));
    let w = read("00000.00001.00010");
    assert_eq!((w.major, w.minor, w.patch), (0, 1, 10));
}

#[test]
fn absent_numbers_are_minus_one() {
    let v = read("7");
    assert_eq!((v.major, v.minor, v.patch), (7, -1, -1));
    let w = read("7.0");
    assert_eq!((w.major, w.minor, w.patch), (7, 0, -1));
}

#[test]
fn suffix_without_marker() {
    let v = read("1.2-BR102");
    assert_eq!(v.branch, Some("BR102".to_string()));
    assert_eq!(v.is_snapshot, false);
    let w = read("1.2-");
    assert_eq!(w.branch, None);
    assert_eq!(w.is_snapshot, false);
    let x = read("1.2-a-b c\u{e9}");
    assert_eq!(x.branch, Some("a-b c\u{e9}".to_string()));
    let y = read("1.2-snapshot");
    assert_eq!(y.branch, Some("snapshot".to_string()));
    assert_eq!(y.is_snapshot, false);
}

#[test]
fn suffix_with_marker() {
    let v = read("1.2-SNAPSHOT");
    assert_eq!(v.branch, None);
    assert_eq!(v.is_snapshot, true);
    let w = read("1.2-BR102-SNAPSHOT");
    assert_eq!(w.branch, Some("BR102".to_string()));
    assert_eq!(w.is_snapshot, true);
    let x = read("1.2--SNAPSHOT");
    assert_eq!(x.branch, None);
    assert_eq!(x.is_snapshot, true);
    let y = read("1.2-BR-SNAPSHOT-later");
    assert_eq!(y.branch, Some("BR".to_string()));
    assert_eq!(y.is_snapshot, true);
    let z = read("1.2-SNAPSHOTS");
    assert_eq!(z.branch, None);
    assert_eq!(z.is_snapshot, true);
}

#[test]
fn a_tag_that_ends_with_the_marker_is_a_snapshot() {
    let v = read("1.2-SNAPSHOT-SNAPSHOT");
    assert_eq!(v.branch, None);
    assert_eq!(v.is_snapshot, true);
    let w = read("1.2-BR-SNAPSHOT-x-SNAPSHOT");
    assert_eq!(w.branch, Some("BR".to_string()));
    assert_eq!(w.is_snapshot, true);
    let x = read("1.2-a-SNAPSHOT-SNAPSHOT-SNAPSHOT");
    assert_eq!(x.branch, Some("a".to_string()));
    assert_eq!(x.is_snapshot, true);
}

#[test]
fn two_markers_before_the_end_tell_no_snapshot() {
    let v = read("1.2-SNAPSHOT-SNAPSHOT-x");
    assert_eq!(v.branch, None);
    assert_eq!(v.is_snapshot, false);
    let w = read("1.2-BR-SNAPSHOT-x-SNAPSHOTS");
    assert_eq!(w.branch, Some("BR".to_string()));
    assert_eq!(w.is_snapshot, false);
}

#[test]
fn greater_patch_sorts_greater() {
    assert_eq!(read("1.2.4").cmp(&read("1.2.3")), Ordering::Greater);
    assert_eq!(read("1.2.3-BR-SNAPSHOT").cmp(&read("1.2.30-BR-SNAPSHOT")), Ordering::Less);
}

#[test]
fn absent_patch_sorts_before_patch_zero() {
    assert_eq!(read("1.2").cmp(&read("1.2.0")), Ordering::Less);
    assert_eq!(read("1").cmp(&read("1.0")), Ordering::Less);
    assert_eq!(read("1.2") < read("1.2.0"), true);
}

#[test]
fn snapshot_and_canonical_differ() {
    assert_ne!(read("2"), read("2-SNAPSHOT"));
    assert_eq!(read("2").cmp(&read("2-SNAPSHOT")), Ordering::Less);
    assert_eq!(read("9.9.9").cmp(&read("1-SNAPSHOT")), Ordering::Less);
}

#[test]
fn raw_text_takes_no_part_in_equality() {
    assert_eq!(read("v1.2"), read("1.2"));
    assert_eq!(read("V1.2-x"), read("1.2-x"));
    assert_eq!(read("01.2"), read("1.02"));
    assert_eq!(read("v1.2").cmp(&read("1.2")), Ordering::Equal);
    let mut set = HashSet::new();
    set.insert(read("v1.2"));
    set.insert(read("1.2"));
    set.insert(read("1.2.0"));
    assert_eq!(set.len(), 2);
}

#[test]
fn order_goes_by_snapshot_then_branch_then_numbers() {
    let sorted = ["1", "1.0", "1.0.0", "1.0.1", "1.1", "2", "0-A", "5-A", "0-AB", "0-B", "0-a",
        "0-SNAPSHOT", "3-SNAPSHOT", "0-A-SNAPSHOT"];
    for i in 0..sorted.len() {
        for j in 0..sorted.len() {
            let expected = i.cmp(&j);
            assert_eq!(read(sorted[i]).cmp(&read(sorted[j])), expected, "{} {}", sorted[i], sorted[j]);
            assert_eq!(read(sorted[i]).partial_cmp(&read(sorted[j])), Some(expected));
            assert_eq!(read(sorted[i]).is_older_than(&read(sorted[j])), expected == Ordering::Less);
            assert_eq!(read(sorted[i]) == read(sorted[j]), expected == Ordering::Equal);
        }
    }
}

#[test]
fn branches_sort_as_strings_do() {
    let names = ["", "A", "AB", "B", "a", "z", "\u{e9}", "\u{4e2d}", "\u{1f600}"];
    for a in names {
        for b in names {
            let x = read(&format!("1-x{}", a));
            let y = read(&format!("1-x{}", b));
            assert_eq!(x.cmp(&y), a.cmp(b), "{:?} {:?}", a, b);
        }
    }
}

#[test]
fn clone_keeps_everything() {
    let v = read("v1.2.3-BR-SNAPSHOT");
    let c = v.clone();
    assert_eq!((c.major, c.minor, c.patch, c.is_snapshot), (1, 2, 3, true));
    assert_eq!(c.branch, Some("BR".to_string()));
    assert_eq!(c.raw, "v1.2.3-BR-SNAPSHOT");
}

fn groups(texts: [Option<&str>; 5]) -> Vec<Option<String>> {
    texts.iter().map(|t| t.map(|s| s.to_string())).collect()
}

#[test]
fn groups_give_the_version() {
    let g = groups([Some("v1.2.3-BR-SNAPSHOT"), Some("1"), Some(".2"), Some(".3"), Some("-BR-SNAPSHOT")]);
    let v = Version::from_groups("v1.2.3-BR-SNAPSHOT", &g).unwrap();
    assert_eq!((v.major, v.minor, v.patch, v.is_snapshot), (1, 2, 3, true));
    assert_eq!(v.branch, Some("BR".to_string()));
    assert_eq!(v.raw, "v1.2.3-BR-SNAPSHOT");
    let h = groups([Some("12"), Some("12"), None, None, None]);
    let w = Version::from_groups("12", &h).unwrap();
    assert_eq!((w.major, w.minor, w.patch, w.is_snapshot), (12, -1, -1, false));
    assert_eq!(w.branch, None);
}

#[test]
fn groups_that_do_not_fit_give_no_version() {
    // not five groups
    assert_eq!(Version::from_groups("1", &groups([Some("1"), Some("1"), None, None, None])[..4].to_vec()).is_none(), true);
    // no major number
    assert_eq!(Version::from_groups("1", &groups([Some("1"), None, None, None, None])).is_none(), true);
    // a major number that is none
    assert_eq!(Version::from_groups("x", &groups([Some("x"), Some("x"), None, None, None])).is_none(), true);
    assert_eq!(Version::from_groups("123456", &groups([Some("123456"), Some("123456"), None, None, None])).is_none(), true);
    // a minor number without its dot
    assert_eq!(Version::from_groups("12", &groups([Some("12"), Some("1"), Some("2"), None, None])).is_none(), true);
    // a patch number without a minor number
    assert_eq!(Version::from_groups("1.2", &groups([Some("1.2"), Some("1"), None, Some(".2"), None])).is_none(), true);
    // a suffix without its hyphen
    assert_eq!(Version::from_groups("1x", &groups([Some("1x"), Some("1"), None, None, Some("x")])).is_none(), true);
    // a suffix with a line feed
    assert_eq!(Version::from_groups("1-\n", &groups([Some("1-\n"), Some("1"), None, None, Some("-\n")])).is_none(), true);
    // groups that spell another tag
    assert_eq!(Version::from_groups("1.3", &groups([Some("1.3"), Some("1"), Some(".2"), None, None])).is_none(), true);
    assert_eq!(Version::from_groups("x1.2", &groups([Some("1.2"), Some("1"), Some(".2"), None, None])).is_none(), true);
    assert_eq!(Version::from_groups("1.2 ", &groups([Some("1.2"), Some("1"), Some(".2"), None, None])).is_none(), true);
}

#[test]
fn two_parsers_read_alike() {
    assert_eq!(parser().is_ok(), true);
    let p = parser().unwrap();
    let q = parser().unwrap();
    for tag in ["1", "v1.2", "1.2.3-BR-SNAPSHOT", "1-a", "latest", "1.2\n", "\u{661}"] {
        let a = p.parse(tag);
        let b = q.parse(tag);
        assert_eq!(a.is_some(), b.is_some(), "{:?}", tag);
        if let (Some(x), Some(y)) = (a, b) {
            assert_eq!(x, y);
            assert_eq!(x.raw, y.raw);
        }
    }
    assert_eq!(p.parse("1-a").unwrap().branch, Some("a".to_string()));
}

#[test]
fn every_shape_of_tag_is_read_as_itself() {
    let p = parser().unwrap();
    for lead in ["", "v", "V"] {
        for major in ["0", "7", "12345"] {
            for minor in ["", ".0", ".42", ".00009"] {
                for patch in ["", ".3", ".99999"] {
                    if minor.is_empty() && !patch.is_empty() {
                        continue;
                    }
                    for suffix in ["", "-", "-x", "-SNAPSHOT", "-x-SNAPSHOT", "-1.2.3", "-v1"] {
                        let tag = format!("{}{}{}{}{}", lead, major, minor, patch, suffix);
                        let v = p.parse(&tag).unwrap();
                        assert_eq!(v.raw, tag);
                        assert_eq!(v.major, major.parse::<i32>().unwrap());
                        assert_eq!(v.minor, if minor.is_empty() { -1 } else { minor[1..].parse::<i32>().unwrap() });
                        assert_eq!(v.patch, if patch.is_empty() { -1 } else { patch[1..].parse::<i32>().unwrap() });
                        assert_eq!(v.is_snapshot, suffix.ends_with("-SNAPSHOT"));
                    }
                }
            }
        }
    }
}
