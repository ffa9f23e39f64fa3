use std::collections::HashSet;
use trimimages::image::{ImageEntry, Images};
use trimimages::version::parser;

#[test]
fn delete_test() {
    let parser = parser().unwrap();
    let mut images = Images::new();
    images.insert("repo0", ImageEntry { id: "id00".to_string(), ver: parser.parse("1.0").unwrap() });
    images.insert("repo0", ImageEntry { id: "id01".to_string(), ver: parser.parse("1.1").unwrap() });
    images.insert("repo0", ImageEntry { id: "id02".to_string(), ver: parser.parse("1.10").unwrap() });
    images.insert("repo0", ImageEntry { id: "id03".to_string(), ver: parser.parse("1.2").unwrap() });

    images.insert("repo0", ImageEntry { id: "id04".to_string(), ver: parser.parse("1.2-SNAPSHOT").unwrap() });
    images.insert("repo0", ImageEntry { id: "id05".to_string(), ver: parser.parse("1.1-SNAPSHOT").unwrap() });

    images.insert("repo0", ImageEntry { id: "id06".to_string(), ver: parser.parse("1.2.0-BR123").unwrap() });
    images.insert("repo0", ImageEntry { id: "id07".to_string(), ver: parser.parse("1.2.1-BR123").unwrap() });
    images.insert("repo0", ImageEntry { id: "id08".to_string(), ver: parser.parse("1.2.10-BR123").unwrap() });
    images.insert("repo0", ImageEntry { id: "id09".to_string(), ver: parser.parse("1.2.2-BR123").unwrap() });

    images.insert("repo0", ImageEntry { id: "id10".to_string(), ver: parser.parse("1.2.2-BR123-SNAPSHOT").unwrap() });
    images.insert("repo0", ImageEntry { id: "id11".to_string(), ver: parser.parse("1.2.1-BR123-SNAPSHOT").unwrap() });

    images.insert("repo1", ImageEntry { id: "id12".to_string(), ver: parser.parse("2.0").unwrap() });
    images.insert("repo1", ImageEntry { id: "id13".to_string(), ver: parser.parse("2.1").unwrap() });
    images.insert("repo1", ImageEntry { id: "id14".to_string(), ver: parser.parse("2.10").unwrap() });
    images.insert("repo1", ImageEntry { id: "id15".to_string(), ver: parser.parse("2.2").unwrap() });

    let mut deleted = HashSet::new();
    for eviction in images.delete(3, 1) {
        deleted.insert(format!("{}:{}", eviction.repository, eviction.version.to_string()));
    }

    assert_eq!(deleted.len(), 5);
    assert_eq!(deleted.contains("repo0:1.0"), true);
    assert_eq!(deleted.contains("repo0:1.1-SNAPSHOT"), true);
    assert_eq!(deleted.contains("repo0:1.2.0-BR123"), true);
    assert_eq!(deleted.contains("repo0:1.2.1-BR123-SNAPSHOT"), true);
    assert_eq!(deleted.contains("repo1:2.0"), true);
}
