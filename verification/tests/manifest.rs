use flux_validator::manifest::{Document, Metadata, Sops};

fn deployment(name: &str, namespace: Option<&str>, arn: Option<&str>) -> Document {
    Document::new(
        "Deployment".to_string(),
        Metadata::new(name.to_string(), namespace.map(|ns| ns.to_string())),
        arn.map(|arn| Sops::new(arn.to_string())),
    )
}

#[test]
fn getters_give_back_what_the_document_was_made_from() {
    let document = deployment("web", Some("prod"), Some("arn:aws:kms:1"));
    assert_eq!(document.get_kind(), "Deployment");
    assert_eq!(document.get_meta().get_name(), "web");
    assert_eq!(document.get_meta().get_namespace(), Some("prod"));
    assert!(document.has_sops());
    let sops = document.get_sops().as_ref().expect("the document is encrypted");
    assert_eq!(sops.get_arn(), "arn:aws:kms:1");
}

#[test]
fn a_document_without_encryption_has_no_sops() {
    let document = deployment("web", None, None);
    assert!(!document.has_sops());
    assert!(document.get_sops().is_none());
    assert_eq!(document.get_meta().get_namespace(), None);
}

#[test]
fn documents_are_equal_when_kind_metadata_and_encryption_are() {
    let first = deployment("web", Some("prod"), Some("arn:aws:kms:1"));
    let second = deployment("web", Some("prod"), Some("arn:aws:kms:1"));
    assert_eq!(first, second);
    assert_eq!(first.clone(), first);
}

#[test]
fn documents_differ_with_any_part_of_their_identity() {
    let base = deployment("web", Some("prod"), Some("arn:aws:kms:1"));
    assert_ne!(base, deployment("api", Some("prod"), Some("arn:aws:kms:1")));
    assert_ne!(base, deployment("web", Some("test"), Some("arn:aws:kms:1")));
    assert_ne!(base, deployment("web", None, Some("arn:aws:kms:1")));
    assert_ne!(base, deployment("web", Some("prod"), Some("arn:aws:kms:2")));
    assert_ne!(base, deployment("web", Some("prod"), None));
    let service = Document::new(
        "Service".to_string(),
        Metadata::new("web".to_string(), Some("prod".to_string())),
        Some(Sops::new("arn:aws:kms:1".to_string())),
    );
    assert_ne!(base, service);
}

#[test]
fn metadata_and_sops_compare_by_their_fields() {
    assert_eq!(
        Metadata::new("web".to_string(), None),
        Metadata::new("web".to_string(), None)
    );
    assert_ne!(
        Metadata::new("web".to_string(), None),
        Metadata::new("web".to_string(), Some("".to_string()))
    );
    assert_eq!(Sops::new("k".to_string()), Sops::new("k".to_string()));
    assert_ne!(Sops::new("k".to_string()), Sops::new("l".to_string()));
    assert_eq!(Sops::new("k".to_string()).clone().get_arn(), "k");
}
