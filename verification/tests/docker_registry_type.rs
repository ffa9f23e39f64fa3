use trimimages::docker_registry_type::{parse, DockerRegistryType};

#[test]
fn parse_test() {
    assert_eq!(parse("Docker"), Result::Ok(DockerRegistryType::Docker));
    assert_eq!(parse("IBMCR"), Result::Ok(DockerRegistryType::IbmCloudRegistry));
    assert_eq!(parse("skopeo").is_err(), true);
}
