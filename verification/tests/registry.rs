use trimimages::docker_registry_type::DockerRegistryType;
use trimimages::image::Images;
use trimimages::image_registry::{add_line, dry_run_line, image_reference, list_command, remove_command, Listed};
use trimimages::version::{parser, Version};

fn read(tag: &str) -> Version {
    parser().unwrap().parse(tag).unwrap()
}

#[test]
fn images_are_named_by_repository_and_tag() {
    assert_eq!(image_reference("repo", &read("v1.2-SNAPSHOT")), "repo:v1.2-SNAPSHOT");
    assert_eq!(image_reference("host:5000/a/b", &read("1")), "host:5000/a/b:1");
}

#[test]
fn listing_commands() {
    assert_eq!(list_command(&DockerRegistryType::Docker), vec!["docker", "images", "--format", "{{.ID}}\t{{.Repository}}\t{{.Tag}}"]);
    assert_eq!(
        list_command(&DockerRegistryType::IbmCloudRegistry),
        vec!["ibmcloud", "cr", "images", "--format", "{{.Digest}}\t{{.Repository}}\t{{.Tag}}"]
    );
}

#[test]
fn removing_commands() {
    assert_eq!(remove_command(&DockerRegistryType::Docker, "repo", &read("1.2")), vec!["docker", "rmi", "repo:1.2"]);
    assert_eq!(
        remove_command(&DockerRegistryType::IbmCloudRegistry, "ns/repo", &read("v3-x")),
        vec!["ibmcloud", "cr", "image-rm", "ns/repo:v3-x"]
    );
}

#[test]
fn dry_run_lines() {
    assert_eq!(dry_run_line(&DockerRegistryType::Docker, "repo", &read("1.2")), "docker rmi repo:1.2");
    assert_eq!(dry_run_line(&DockerRegistryType::IbmCloudRegistry, "repo", &read("1.2")), "ibmcloud cr image-rm repo:1.2");
}

#[test]
fn lines_of_a_listing_fill_the_catalog() {
    let p = parser().unwrap();
    let mut images = Images::new();
    assert_eq!(add_line(&mut images, &p, "abc\trepo\t1.0"), Listed::Added);
    assert_eq!(add_line(&mut images, &p, "def\trepo\t1.1"), Listed::Added);
    assert_eq!(add_line(&mut images, &p, "ghi\tother\t1.0\textra\tfields"), Listed::Added);
    assert_eq!(images.find("repo", &read("1.0")).unwrap().id, "abc");
    assert_eq!(images.find("repo", &read("1.1")).unwrap().id, "def");
    assert_eq!(images.find("other", &read("1.0")).unwrap().id, "ghi");
    let gone: Vec<String> = images.delete(1, 1).iter().map(|e| format!("{}:{}", e.repository, e.version.to_string())).collect();
    assert_eq!(gone, vec!["repo:1.0"]);
}

#[test]
fn a_line_with_a_tag_that_is_no_version_is_passed_over() {
    let p = parser().unwrap();
    let mut images = Images::new();
    assert_eq!(add_line(&mut images, &p, "abc\trepo\tlatest"), Listed::Unrecognized("latest".to_string()));
    assert_eq!(add_line(&mut images, &p, "abc\trepo\t<none>"), Listed::Unrecognized("<none>".to_string()));
    assert_eq!(add_line(&mut images, &p, "abc\trepo\t"), Listed::Unrecognized(String::new()));
    assert_eq!(add_line(&mut images, &p, "abc\trepo\t\t1.0"), Listed::Unrecognized(String::new()));
    assert_eq!(add_line(&mut images, &p, "abc\trepo\tx.y\t1.0"), Listed::Unrecognized("x.y".to_string()));
    assert_eq!(images.delete(0, 0).len(), 0);
}

#[test]
fn a_line_with_too_few_fields_is_passed_over() {
    let p = parser().unwrap();
    let mut images = Images::new();
    assert_eq!(add_line(&mut images, &p, ""), Listed::Malformed);
    assert_eq!(add_line(&mut images, &p, "abc"), Listed::Malformed);
    assert_eq!(add_line(&mut images, &p, "abc\trepo"), Listed::Malformed);
    assert_eq!(add_line(&mut images, &p, "abc repo 1.0"), Listed::Malformed);
    assert_eq!(images.delete(0, 0).len(), 0);
}

#[test]
fn fields_may_be_empty_or_hold_any_character() {
    let p = parser().unwrap();
    let mut images = Images::new();
    assert_eq!(add_line(&mut images, &p, "\t\t1.0"), Listed::Added);
    assert_eq!(images.find("", &read("1.0")).unwrap().id, "");
    assert_eq!(add_line(&mut images, &p, "sha256:\u{e9}\tr\u{e9}po/x\tv2-\u{4e2d}"), Listed::Added);
    let found = images.find("r\u{e9}po/x", &read("2-\u{4e2d}")).unwrap();
    assert_eq!(found.id, "sha256:\u{e9}");
    assert_eq!(found.ver.raw, "v2-\u{4e2d}");
}

#[test]
fn of_two_lines_with_one_version_the_later_stays() {
    let p = parser().unwrap();
    let mut images = Images::new();
    assert_eq!(add_line(&mut images, &p, "one\trepo\t1.0"), Listed::Added);
    assert_eq!(add_line(&mut images, &p, "two\trepo\tv1.0"), Listed::Added);
    assert_eq!(images.find("repo", &read("1.0")).unwrap().id, "two");
    assert_eq!(images.delete(0, 0).len(), 1);
}
