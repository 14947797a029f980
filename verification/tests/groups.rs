use flux_validator::aggregate::{DuplicateGroups, FileKeyUsage};
use flux_validator::manifest::{Document, Metadata};

fn service(name: &str) -> Document {
    Document::new("Service".to_string(), Metadata::new(name.to_string(), None), None)
}

#[test]
fn a_new_mapping_has_no_groups() {
    let usage = FileKeyUsage::new();
    assert_eq!(usage.len(), 0);
    assert!(usage.get(&"k1".to_string()).is_none());
    assert_eq!(usage.position(&"k1".to_string()), None);
}

#[test]
fn adding_files_a_path_under_its_key() {
    let mut usage = FileKeyUsage::new();
    usage.add("k1".to_string(), "a-sops.yml");
    usage.add("k2".to_string(), "a-sops.yml");
    usage.add("k1".to_string(), "b-sops.yml");
    usage.add("k1".to_string(), "a-sops.yml");
    assert_eq!(usage.len(), 2);
    assert_eq!(usage.key(0), "k1");
    assert_eq!(usage.key(1), "k2");
    assert_eq!(
        usage.files(0).to_vec(),
        vec!["a-sops.yml".to_string(), "b-sops.yml".to_string()]
    );
    assert_eq!(usage.files(1).to_vec(), vec!["a-sops.yml".to_string()]);
    let listed = usage.get(&"k1".to_string()).expect("the key has a group");
    assert_eq!(listed.len(), 2);
}

#[test]
fn only_shared_groups_are_retained() {
    let mut groups = DuplicateGroups::new();
    groups.add(service("one"), "a-sops.yml");
    groups.add(service("two"), "a-sops.yml");
    groups.add(service("two"), "b-sops.yml");
    groups.add(service("three"), "c-sops.yml");
    groups.add(service("three"), "c-sops.yml");
    groups.add(service("four"), "a-sops.yml");
    groups.add(service("four"), "b-sops.yml");
    groups.add(service("four"), "c-sops.yml");
    assert_eq!(groups.len(), 4);
    groups.retain_shared();
    assert_eq!(groups.len(), 2);
    assert_eq!(groups.key(0), &service("two"));
    assert_eq!(groups.key(1), &service("four"));
    assert_eq!(groups.files(1).len(), 3);
    assert!(groups.get(&service("one")).is_none());
    assert!(groups.get(&service("three")).is_none());
    groups.retain_shared();
    assert_eq!(groups.len(), 2);
}
