use flux_validator::paths::PathSet;

#[test]
fn a_new_set_is_empty() {
    let set = PathSet::new();
    assert_eq!(set.len(), 0);
    assert!(!set.contains("a-sops.yml"));
    assert!(set.to_vec().is_empty());
}

#[test]
fn a_path_is_held_once_however_often_it_is_inserted() {
    let mut set = PathSet::new();
    assert!(set.insert("a-sops.yml"));
    assert!(!set.insert("a-sops.yml"));
    assert!(set.insert("b-sops.yml"));
    assert!(!set.insert("a-sops.yml"));
    assert_eq!(set.len(), 2);
    assert!(set.contains("a-sops.yml"));
    assert!(set.contains("b-sops.yml"));
    assert!(!set.contains("c-sops.yml"));
    assert_eq!(set.to_vec(), vec!["a-sops.yml".to_string(), "b-sops.yml".to_string()]);
    assert_eq!(set.get(0), "a-sops.yml");
    assert_eq!(set.get(1), "b-sops.yml");
}
