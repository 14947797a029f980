use flux_validator::error::ScanError;
use flux_validator::files::{manifest_pattern, paths_to_vec, ManifestFile};
use flux_validator::manifest::{Document, Metadata, MissingField, RawDocument, RawMetadata, Sops};

fn raw(kind: Option<&str>, name: Option<Option<&str>>, namespace: Option<&str>, key: Option<&str>) -> RawDocument {
    RawDocument {
        kind: kind.map(|kind| kind.to_string()),
        metadata: name.map(|name| RawMetadata {
            name: name.map(|name| name.to_string()),
            namespace: namespace.map(|ns| ns.to_string()),
        }),
        key_identifier: key.map(|key| key.to_string()),
    }
}

#[test]
fn the_pattern_finds_sops_files_at_any_depth() {
    assert_eq!(manifest_pattern("clusters/prod"), "clusters/prod/**/*-sops.yml");
    assert_eq!(manifest_pattern(""), "/**/*-sops.yml");
    assert_eq!(manifest_pattern("."), "./**/*-sops.yml");
}

#[test]
fn listed_paths_are_collected_in_order() {
    let entries = vec![Ok("b-sops.yml".to_string()), Ok("a-sops.yml".to_string())];
    assert_eq!(
        paths_to_vec(&entries),
        Ok(vec!["b-sops.yml".to_string(), "a-sops.yml".to_string()])
    );
    assert_eq!(paths_to_vec(&Vec::new()), Ok(Vec::new()));
}

#[test]
fn the_first_failure_of_the_listing_is_the_error() {
    let entries = vec![
        Ok("a-sops.yml".to_string()),
        Err("permission denied".to_string()),
        Ok("b-sops.yml".to_string()),
        Err("too many links".to_string()),
    ];
    assert_eq!(
        paths_to_vec(&entries),
        Err(ScanError::Discovery { cause: "permission denied".to_string() })
    );
}

#[test]
fn a_complete_raw_document_decodes_to_its_manifest() {
    let document = Document::decode(&raw(Some("Deployment"), Some(Some("web")), Some("prod"), Some("k1")))
        .expect("nothing is missing");
    assert_eq!(
        document,
        Document::new(
            "Deployment".to_string(),
            Metadata::new("web".to_string(), Some("prod".to_string())),
            Some(Sops::new("k1".to_string())),
        )
    );
    let plain = Document::decode(&raw(Some("Service"), Some(Some("api")), None, None))
        .expect("namespace and encryption may be absent");
    assert!(!plain.has_sops());
    assert_eq!(plain.get_meta().get_namespace(), None);
}

#[test]
fn the_first_missing_field_is_reported() {
    assert_eq!(
        Document::decode(&raw(None, None, None, None)).err(),
        Some(MissingField::Kind)
    );
    assert_eq!(
        Document::decode(&raw(None, Some(Some("web")), None, None)).err(),
        Some(MissingField::Kind)
    );
    assert_eq!(
        Document::decode(&raw(Some("Deployment"), None, None, Some("k1"))).err(),
        Some(MissingField::Metadata)
    );
    assert_eq!(
        Document::decode(&raw(Some("Deployment"), Some(None), Some("prod"), None)).err(),
        Some(MissingField::Name)
    );
    assert_eq!(MissingField::Kind.message(), "missing field `kind`");
    assert_eq!(MissingField::Metadata.message(), "missing field `metadata`");
    assert_eq!(MissingField::Name.message(), "missing field `name`");
}

#[test]
fn a_file_decodes_when_all_its_documents_do() {
    let documents = vec![
        raw(Some("Deployment"), Some(Some("web")), Some("prod"), Some("k1")),
        raw(Some("Service"), Some(Some("web")), None, None),
    ];
    let file = ManifestFile::decode("a-sops.yml".to_string(), &documents);
    assert_eq!(file.get_path(), "a-sops.yml");
    let decoded = file.get_contents().expect("every document is complete");
    assert_eq!(decoded.len(), 2);
    assert_eq!(decoded[0].get_kind(), "Deployment");
    assert_eq!(decoded[1].get_kind(), "Service");
    let empty = ManifestFile::decode("empty-sops.yml".to_string(), &Vec::new());
    assert_eq!(empty.get_contents().map(|documents| documents.len()), Ok(0));
}

#[test]
fn one_incomplete_document_fails_the_whole_file() {
    let documents = vec![
        raw(Some("Deployment"), Some(Some("web")), None, None),
        raw(Some("Deployment"), Some(None), None, None),
        raw(None, Some(Some("web")), None, None),
    ];
    let file = ManifestFile::decode("bad-sops.yml".to_string(), &documents);
    assert_eq!(file.get_path(), "bad-sops.yml");
    assert_eq!(file.get_contents().err(), Some("missing field `name`"));
    let given = ManifestFile::undecodable("worse-sops.yml".to_string(), "not YAML".to_string());
    assert_eq!(given.get_contents().err(), Some("not YAML"));
}
