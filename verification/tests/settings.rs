use trimimages::arg::{parse_int, try_parse_int, Args, DEFAULT_KEEP, DEFAULT_KEEP_SNAPSHOT};
use trimimages::docker_registry_type::{parse, parse_lowercase, DockerRegistryType};

#[test]
fn counts_are_read() {
    assert_eq!(parse_int("3", "keep count"), 3);
    assert_eq!(parse_int("0", "keep count"), 0);
    assert_eq!(parse_int("+17", "keep count"), 17);
    assert_eq!(parse_int("007", "keep count"), 7);
    assert_eq!(parse_int(&usize::MAX.to_string(), "keep count"), usize::MAX);
    assert_eq!(try_parse_int("3", "keep count"), Ok(3));
    assert_eq!(try_parse_int("+17", "keep count"), Ok(17));
    assert_eq!(try_parse_int(&usize::MAX.to_string(), "keep count"), Ok(usize::MAX));
}

#[test]
fn what_is_no_count_is_told() {
    for text in ["", "+", "-1", "3 ", " 3", "3.0", "abc", "1_000", "++1", "\u{663}"] {
        assert_eq!(try_parse_int(text, "keep count"), Err("keep count should be integer.".to_string()), "{:?}", text);
    }
    assert_eq!(try_parse_int("x", "keep count snapshot"), Err("keep count snapshot should be integer.".to_string()));
}

#[test]
fn a_count_too_great_is_no_count() {
    let beyond = format!("{}0", usize::MAX);
    assert_eq!(try_parse_int(&beyond, "keep count").is_err(), true);
    let next = (usize::MAX as u128 + 1).to_string();
    assert_eq!(try_parse_int(&next, "keep count").is_err(), true);
}

#[test]
fn counts_agree_with_the_standard_reading() {
    for text in ["0", "1", "+1", "10", "99999", "", "+", "-0", "1a", "18446744073709551615", "18446744073709551616"] {
        assert_eq!(try_parse_int(text, "n").ok(), text.parse::<usize>().ok(), "{:?}", text);
    }
}

#[test]
fn settings_are_put_together() {
    let args = Args::from_values(true, "3", "1", false).unwrap();
    assert_eq!(args.is_dry_run, true);
    assert_eq!(args.keep_count, 3);
    assert_eq!(args.keep_count_snapshot, 1);
    assert_eq!(args.show_version, false);
    assert_eq!(Args::from_values(false, "x", "1", true).unwrap_err(), "keep count should be integer.");
    assert_eq!(Args::from_values(false, "3", "y", true).unwrap_err(), "keep count snapshot should be integer.");
    assert_eq!(Args::from_values(false, "x", "y", true).unwrap_err(), "keep count should be integer.");
}

#[test]
fn kinds_of_registry_are_read_in_any_case() {
    assert_eq!(parse("docker"), Ok(DockerRegistryType::Docker));
    assert_eq!(parse("DOCKER"), Ok(DockerRegistryType::Docker));
    assert_eq!(parse("IbmCr"), Ok(DockerRegistryType::IbmCloudRegistry));
    assert_eq!(parse("ibmcr"), Ok(DockerRegistryType::IbmCloudRegistry));
}

#[test]
fn another_kind_is_turned_down_in_lowercase() {
    assert_eq!(parse("Skopeo"), Err("Invalid registry type 'skopeo'. Specify 'docker' or 'ibmcr'.".to_string()));
    assert_eq!(parse(""), Err("Invalid registry type ''. Specify 'docker' or 'ibmcr'.".to_string()));
    assert_eq!(parse("docker "), Err("Invalid registry type 'docker '. Specify 'docker' or 'ibmcr'.".to_string()));
}

#[test]
fn lowercase_is_taken_as_it_is() {
    assert_eq!(parse_lowercase("docker"), Ok(DockerRegistryType::Docker));
    assert_eq!(parse_lowercase("ibmcr"), Ok(DockerRegistryType::IbmCloudRegistry));
    assert_eq!(parse_lowercase("Docker"), Err("Invalid registry type 'Docker'. Specify 'docker' or 'ibmcr'.".to_string()));
}

#[test]
fn three_versions_and_one_snapshot_are_kept_by_default() {
    let args = Args::from_values(false, DEFAULT_KEEP, DEFAULT_KEEP_SNAPSHOT, false).unwrap();
    assert_eq!(args.keep_count, 3);
    assert_eq!(args.keep_count_snapshot, 1);
}
