use flux_validator::error::ScanError;
use flux_validator::files::ManifestFile;
use flux_validator::manifest::{Document, Metadata, RawDocument, RawMetadata, Sops};
use flux_validator::rotation::{RotationStep, ToolCommand};
use flux_validator::scan::{list_rotation_requests, scan, Report, ScanMode, ScanPlan};

fn manifest(kind: &str, name: &str, namespace: Option<&str>, arn: Option<&str>) -> Document {
    Document::new(
        kind.to_string(),
        Metadata::new(name.to_string(), namespace.map(|ns| ns.to_string())),
        arn.map(|arn| Sops::new(arn.to_string())),
    )
}

fn web() -> Document {
    manifest("Deployment", "web", Some("prod"), Some("arn:aws:kms:1"))
}

fn file(path: &str, documents: Vec<Document>) -> ManifestFile {
    ManifestFile::decoded(path.to_string(), documents)
}

fn two_files() -> Vec<ManifestFile> {
    vec![file("a-sops.yml", vec![web(), web()]), file("b-sops.yml", vec![web()])]
}

/// A report written out as plain values: the keys with their files, and the
/// duplicated manifests with their files.
fn contents(report: &Report) -> (Vec<(String, Vec<String>)>, Vec<(Document, Vec<String>)>) {
    let mut keys = Vec::new();
    for index in 0..report.key_usage.len() {
        keys.push((report.key_usage.key(index).clone(), report.key_usage.files(index).to_vec()));
    }
    let mut duplicates = Vec::new();
    for index in 0..report.duplicates.len() {
        duplicates.push((
            report.duplicates.key(index).clone(),
            report.duplicates.files(index).to_vec(),
        ));
    }
    (keys, duplicates)
}

#[test]
fn two_files_with_the_same_encrypted_manifest() {
    let report = scan(&two_files()).expect("every file was decoded");
    let (keys, duplicates) = contents(&report);
    assert_eq!(
        keys,
        vec![(
            "arn:aws:kms:1".to_string(),
            vec!["a-sops.yml".to_string(), "b-sops.yml".to_string()]
        )]
    );
    assert_eq!(
        duplicates,
        vec![(web(), vec!["a-sops.yml".to_string(), "b-sops.yml".to_string()])]
    );
}

#[test]
fn groups_of_one_file_are_not_reported_and_shared_groups_are() {
    let lonely = manifest("Service", "api", None, None);
    let shared = manifest("ConfigMap", "settings", Some("prod"), None);
    let files = vec![
        file("a-sops.yml", vec![lonely.clone(), lonely.clone(), shared.clone(), web()]),
        file("b-sops.yml", vec![shared.clone()]),
        file("c-sops.yml", vec![shared.clone(), manifest("Service", "api", Some("prod"), None)]),
    ];
    let report = scan(&files).expect("every file was decoded");
    let (_, duplicates) = contents(&report);
    assert_eq!(
        duplicates,
        vec![(
            shared,
            vec!["a-sops.yml".to_string(), "b-sops.yml".to_string(), "c-sops.yml".to_string()]
        )]
    );
    assert!(report.duplicates.get(&lonely).is_none());
    assert!(report.duplicates.get(&web()).is_none());
}

#[test]
fn a_manifest_twice_in_one_file_is_not_a_duplicate() {
    let files = vec![file("a-sops.yml", vec![web(), web(), web()])];
    let report = scan(&files).expect("every file was decoded");
    assert_eq!(report.duplicates.len(), 0);
    assert_eq!(report.key_usage.len(), 1);
}

#[test]
fn scanning_twice_gives_the_same_report() {
    let files = vec![
        file("a-sops.yml", vec![web(), manifest("Secret", "db", None, Some("k2"))]),
        file("b-sops.yml", vec![web(), manifest("Secret", "db", None, Some("k2"))]),
        file("c-sops.yml", vec![manifest("Secret", "db", None, None)]),
    ];
    let first = scan(&files).expect("every file was decoded");
    let second = scan(&files).expect("every file was decoded");
    assert_eq!(contents(&first), contents(&second));
    assert_eq!(first.render_key_usage(), second.render_key_usage());
    assert_eq!(first.render_duplicates(), second.render_duplicates());
}

#[test]
fn a_document_without_a_name_makes_its_file_undecodable() {
    let complete = RawDocument {
        kind: Some("Deployment".to_string()),
        metadata: Some(RawMetadata { name: Some("web".to_string()), namespace: None }),
        key_identifier: Some("arn:aws:kms:1".to_string()),
    };
    let nameless = RawDocument {
        kind: Some("Deployment".to_string()),
        metadata: Some(RawMetadata { name: None, namespace: Some("prod".to_string()) }),
        key_identifier: None,
    };
    let files = vec![
        file("a-sops.yml", vec![web()]),
        ManifestFile::decode("bad-sops.yml".to_string(), &vec![complete, nameless]),
        file("c-sops.yml", vec![web()]),
    ];
    let expected = ScanError::Parse {
        path: "bad-sops.yml".to_string(),
        cause: "missing field `name`".to_string(),
    };
    assert_eq!(scan(&files).err(), Some(expected));
    let plan = ScanPlan::new(ScanMode::Scan, None).expect("a plain scan needs no key");
    assert_eq!(
        plan.run(&files).err(),
        Some(ScanError::Parse {
            path: "bad-sops.yml".to_string(),
            cause: "missing field `name`".to_string(),
        })
    );
}

#[test]
fn rotation_without_a_key_is_a_configuration_error() {
    assert_eq!(
        ScanPlan::new(ScanMode::ScanAndRotate, None).err(),
        Some(ScanError::Configuration)
    );
    assert!(ScanPlan::new(ScanMode::ScanAndRotate, Some("k".to_string())).is_ok());
    assert!(ScanPlan::new(ScanMode::Scan, None).is_ok());
    assert!(ScanPlan::new(ScanMode::Scan, Some("k".to_string())).is_ok());
}

#[test]
fn a_plain_scan_prepares_no_rotation() {
    for key in [None, Some("arn:aws:kms:2".to_string())] {
        let plan = ScanPlan::new(ScanMode::Scan, key).expect("a plain scan is always valid");
        assert!(!plan.rotates());
        let outcome = plan.run(&two_files()).expect("every file was decoded");
        assert!(outcome.rotation.is_none());
        assert_eq!(outcome.report.key_usage.len(), 1);
    }
}

#[test]
fn rotating_a_file_with_two_documents_calls_the_tool_once_for_each_step() {
    let files = vec![file("a-sops.yml", vec![web(), web()])];
    assert_eq!(
        list_rotation_requests(&files),
        vec!["a-sops.yml".to_string(), "a-sops.yml".to_string()]
    );
    let plan = ScanPlan::new(ScanMode::ScanAndRotate, Some("arn:aws:kms:2".to_string()))
        .expect("the key is there");
    assert!(plan.rotates());
    let outcome = plan.run(&files).expect("every file was decoded");
    let mut rotation = outcome.rotation.expect("rotation was asked for");
    let mut decrypts = 0;
    let mut encrypts = 0;
    loop {
        match rotation.command() {
            ToolCommand::Finished => break,
            ToolCommand::Decrypt { path } => {
                assert_eq!(path, "a-sops.yml");
                decrypts += 1;
            }
            ToolCommand::Encrypt { path, key } => {
                assert_eq!(path, "a-sops.yml");
                assert_eq!(key, "arn:aws:kms:2");
                encrypts += 1;
            }
        }
        assert!(decrypts + encrypts <= 2);
        rotation.record(Ok(()));
    }
    assert_eq!((decrypts, encrypts), (1, 1));
    assert!(rotation.get_errors().is_empty());
    assert_eq!(rotation.get_errors().iter().filter(|e| e.step == RotationStep::Decrypt).count(), 0);
}

#[test]
fn only_encrypted_documents_ask_for_rotation() {
    let files = vec![
        file("a-sops.yml", vec![manifest("Service", "api", None, None)]),
        file("b-sops.yml", vec![web(), manifest("Service", "api", None, None), web()]),
        ManifestFile::undecodable("c-sops.yml".to_string(), "broken".to_string()),
        file("d-sops.yml", vec![web()]),
    ];
    assert_eq!(
        list_rotation_requests(&files),
        vec!["b-sops.yml".to_string(), "b-sops.yml".to_string(), "d-sops.yml".to_string()]
    );
}
