use flux_validator::rotation::{rotate_kms_keys, Rotation, RotationError, RotationStep, ToolCommand};

/// Runs a rotation to its end against a tool that fails where `fails` says
/// so, and gives back the calls that were made, in order.
fn drive(rotation: &mut Rotation, fails: &dyn Fn(RotationStep, &str) -> Option<String>) -> Vec<(RotationStep, String, Option<String>)> {
    let mut calls = Vec::new();
    loop {
        let (step, path, key) = match rotation.command() {
            ToolCommand::Finished => break,
            ToolCommand::Decrypt { path } => (RotationStep::Decrypt, path, None),
            ToolCommand::Encrypt { path, key } => (RotationStep::Encrypt, path, Some(key)),
        };
        assert!(calls.len() < 1000, "the rotation does not end");
        let outcome = match fails(step, &path) {
            Some(cause) => Err(cause),
            None => Ok(()),
        };
        calls.push((step, path, key));
        rotation.record(outcome);
    }
    assert!(rotation.is_finished());
    calls
}

fn paths(paths: &[&str]) -> Vec<String> {
    paths.iter().map(|path| path.to_string()).collect()
}

fn count(calls: &[(RotationStep, String, Option<String>)], step: RotationStep, path: &str) -> usize {
    calls.iter().filter(|call| call.0 == step && call.1 == path).count()
}

#[test]
fn a_file_requested_twice_is_decrypted_once_and_encrypted_once() {
    let mut rotation = rotate_kms_keys("arn:aws:kms:2", &paths(&["a-sops.yml", "a-sops.yml"]));
    let calls = drive(&mut rotation, &|_, _| None);
    assert_eq!(
        calls,
        vec![
            (RotationStep::Decrypt, "a-sops.yml".to_string(), None),
            (RotationStep::Encrypt, "a-sops.yml".to_string(), Some("arn:aws:kms:2".to_string())),
        ]
    );
    assert_eq!(rotation.get_ledger().to_vec(), vec!["a-sops.yml".to_string()]);
    assert!(rotation.get_errors().is_empty());
}

#[test]
fn each_file_is_rotated_once_however_often_it_is_requested() {
    for repeats in 1..5 {
        let mut requests = Vec::new();
        for _ in 0..repeats {
            requests.extend(paths(&["a-sops.yml", "b-sops.yml", "a-sops.yml", "c-sops.yml"]));
        }
        let mut rotation = rotate_kms_keys("new", &requests);
        let calls = drive(&mut rotation, &|_, _| None);
        assert_eq!(calls.len(), 6);
        for path in ["a-sops.yml", "b-sops.yml", "c-sops.yml"] {
            assert_eq!(count(&calls, RotationStep::Decrypt, path), 1);
            assert_eq!(count(&calls, RotationStep::Encrypt, path), 1);
        }
        assert_eq!(
            rotation.get_ledger().to_vec(),
            paths(&["a-sops.yml", "b-sops.yml", "c-sops.yml"])
        );
    }
}

#[test]
fn files_are_taken_up_in_the_order_of_their_first_request() {
    let mut rotation = rotate_kms_keys("new", &paths(&["b", "a", "b", "c", "a"]));
    let calls = drive(&mut rotation, &|_, _| None);
    let order: Vec<&str> = calls.iter().map(|call| call.1.as_str()).collect();
    assert_eq!(order, vec!["b", "b", "a", "a", "c", "c"]);
}

#[test]
fn no_requests_need_no_calls() {
    let mut rotation = rotate_kms_keys("new", &Vec::new());
    assert!(rotation.is_finished());
    assert_eq!(rotation.command(), ToolCommand::Finished);
    rotation.record(Ok(()));
    rotation.record(Err("late".to_string()));
    assert!(rotation.is_finished());
    assert!(rotation.get_errors().is_empty());
    assert_eq!(rotation.get_ledger().len(), 0);
}

#[test]
fn the_command_stays_the_same_until_its_outcome_is_recorded() {
    let rotation = rotate_kms_keys("new", &paths(&["a-sops.yml"]));
    assert_eq!(rotation.get_key(), "new");
    assert!(!rotation.is_finished());
    assert_eq!(rotation.command(), ToolCommand::Decrypt { path: "a-sops.yml".to_string() });
    assert_eq!(rotation.command(), ToolCommand::Decrypt { path: "a-sops.yml".to_string() });
}

#[test]
fn a_file_that_cannot_be_decrypted_is_not_encrypted() {
    let mut rotation = rotate_kms_keys("new", &paths(&["a", "b", "a"]));
    let calls = drive(&mut rotation, &|step, path| {
        if step == RotationStep::Decrypt && path == "a" {
            Some("no access to the key".to_string())
        } else {
            None
        }
    });
    assert_eq!(count(&calls, RotationStep::Decrypt, "a"), 1);
    assert_eq!(count(&calls, RotationStep::Encrypt, "a"), 0);
    assert_eq!(count(&calls, RotationStep::Decrypt, "b"), 1);
    assert_eq!(count(&calls, RotationStep::Encrypt, "b"), 1);
    assert_eq!(rotation.get_ledger().to_vec(), paths(&["b"]));
    assert_eq!(
        rotation.get_errors(),
        &vec![RotationError {
            path: "a".to_string(),
            step: RotationStep::Decrypt,
            cause: "no access to the key".to_string(),
        }]
    );
}

#[test]
fn a_failed_encryption_is_reported_and_the_other_files_go_on() {
    let mut rotation = rotate_kms_keys("new", &paths(&["a", "b", "c"]));
    let calls = drive(&mut rotation, &|step, path| {
        if step == RotationStep::Encrypt && path != "b" {
            Some(format!("cannot encrypt {path}"))
        } else {
            None
        }
    });
    assert_eq!(calls.len(), 6);
    assert_eq!(rotation.get_ledger().to_vec(), paths(&["b"]));
    assert!(!rotation.get_ledger().contains("a"));
    assert_eq!(
        rotation.get_errors(),
        &vec![
            RotationError {
                path: "a".to_string(),
                step: RotationStep::Encrypt,
                cause: "cannot encrypt a".to_string(),
            },
            RotationError {
                path: "c".to_string(),
                step: RotationStep::Encrypt,
                cause: "cannot encrypt c".to_string(),
            },
        ]
    );
}

#[test]
fn a_file_whose_rotation_failed_is_not_taken_up_again() {
    let mut rotation = rotate_kms_keys("new", &paths(&["a", "a", "a"]));
    let calls = drive(&mut rotation, &|step, _| {
        if step == RotationStep::Encrypt {
            Some("disk full".to_string())
        } else {
            None
        }
    });
    assert_eq!(
        calls,
        vec![
            (RotationStep::Decrypt, "a".to_string(), None),
            (RotationStep::Encrypt, "a".to_string(), Some("new".to_string())),
        ]
    );
    assert_eq!(rotation.get_errors().len(), 1);
    assert_eq!(rotation.get_ledger().len(), 0);
}
