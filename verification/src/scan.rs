//! The scan as a whole: the two read-only passes, the report made from
//! them, and the rotation that may follow.

use vstd::prelude::*;
use crate::aggregate::{
    all_decoded, duplicate_groups, first_undecodable, get_dup_documents, get_kms_keys, key_usage,
    parse_error, DuplicateGroups, FileKeyUsage,
};
use crate::error::{ScanError, ScanErrorView};
use crate::files::{document_views, file_views, ManifestFile, ManifestFileView};
use crate::groups::shared;
use crate::manifest::DocumentView;
use crate::paths::path_views;
use crate::rotation::{
    calls, decrypt, due, encrypt, lemma_rotation_invariant, rotate_kms_keys, Exchange, Rotation,
};

verus! {

/// What a scan is asked to do.
#[derive(Debug, Clone, Copy, PartialEq, Eq, Structural)]
pub enum ScanMode {
    /// Report key usage and duplicates.
    Scan,
    /// Report, then rotate the encrypted files to a new key.
    ScanAndRotate,
}

/// What a scan found: the keys in use, and the manifests that more than one
/// file holds.
pub struct Report {
    /// The keys in use, each with the files that use it.
    pub key_usage: FileKeyUsage,
    /// The duplicated manifests, each with the files that hold it.
    pub duplicates: DuplicateGroups,
}

/// What a [`Report`] stands for in contracts.
pub struct ReportView {
    pub key_usage: Map<Seq<char>, Set<Seq<char>>>,
    pub duplicates: Map<DocumentView, Set<Seq<char>>>,
}

impl View for Report {
    type V = ReportView;

    open spec fn view(&self) -> ReportView {
        ReportView { key_usage: self.key_usage@, duplicates: self.duplicates@ }
    }
}

impl Report {
    /// Both mappings of the report are well formed.
    pub open spec fn well_formed(&self) -> bool {
        self.key_usage.well_formed() && self.duplicates.well_formed()
    }
}

/// The report on a list of decoded files: all key usage, and of the
/// manifest groups those that more than one file shares.
pub open spec fn report_of(files: Seq<ManifestFileView>) -> ReportView {
    ReportView { key_usage: key_usage(files), duplicates: shared(duplicate_groups(files)) }
}

/// `result` is what a scan of `files` gives: the report if every file was
/// decoded, and else the error that names the first file that was not.
pub open spec fn scanned(files: Seq<ManifestFileView>, result: Result<Report, ScanError>) -> bool {
    match result {
        Ok(report) => all_decoded(files) && report.well_formed() && report@ == report_of(files),
        Err(error) => exists|index: int|
            first_undecodable(files, index) && error@ == parse_error(files, index),
    }
}

/// Runs both read-only passes over `files` and makes the report.
///
/// A file that could not be decoded ends the scan: nothing is reported for
/// the other files either.
pub fn scan(files: &Vec<ManifestFile>) -> (result: Result<Report, ScanError>)
    ensures
        scanned(file_views(files@), result),
{
    let key_usage = match get_kms_keys(files) {
        Ok(usage) => usage,
        Err(error) => {
            return Err(error);
        },
    };
    let mut duplicates = match get_dup_documents(files) {
        Ok(groups) => groups,
        Err(error) => {
            return Err(error);
        },
    };
    duplicates.retain_shared();
    Ok(Report { key_usage, duplicates })
}

/// Only one file can be the first that could not be decoded.
pub proof fn lemma_first_undecodable_unique(files: Seq<ManifestFileView>, one: int, other: int)
    requires
        first_undecodable(files, one),
        first_undecodable(files, other),
    ensures
        one == other,
{
    if one < other {
        assert(files[one].contents is Ok);
    }
    if other < one {
        assert(files[other].contents is Ok);
    }
}

/// Scanning is repeatable: two scans of the same files end alike, with
/// equal reports or with equal errors.
pub proof fn lemma_scan_repeatable(
    files: Seq<ManifestFileView>,
    first: Result<Report, ScanError>,
    second: Result<Report, ScanError>,
)
    requires
        scanned(files, first),
        scanned(files, second),
    ensures
        first is Ok <==> second is Ok,
        first is Ok ==> first->Ok_0@ == second->Ok_0@,
        first is Err ==> first->Err_0@ == second->Err_0@,
{
    if first is Err {
        let one = choose|index: int|
            first_undecodable(files, index) && first->Err_0@ == parse_error(files, index);
        assert(files[one].contents is Err);
        if second is Err {
            let other = choose|index: int|
                first_undecodable(files, index) && second->Err_0@ == parse_error(files, index);
            lemma_first_undecodable_unique(files, one, other);
        }
    } else if second is Err {
        let other = choose|index: int|
            first_undecodable(files, index) && second->Err_0@ == parse_error(files, index);
        assert(files[other].contents is Err);
    }
}

/// A group that a single file makes up is not reported as duplicated; a
/// group that two or more files share always is, with all its files.
pub proof fn lemma_duplicates_reported(files: Seq<ManifestFileView>, identity: DocumentView)
    requires
        duplicate_groups(files).dom().contains(identity),
    ensures
        duplicate_groups(files)[identity].len() == 1 ==> !report_of(files).duplicates.dom().contains(
            identity,
        ),
        duplicate_groups(files)[identity].len() >= 2 ==> report_of(files).duplicates.dom().contains(
            identity,
        ) && report_of(files).duplicates[identity] == duplicate_groups(files)[identity],
{
}

/// Picks the documents that are encrypted.
pub open spec fn is_encrypted() -> spec_fn(DocumentView) -> bool {
    |document: DocumentView| document.sops is Some
}

/// The rotation requests that the documents of one file give rise to: the
/// path of the file, once for each encrypted document.
pub open spec fn requests_among(path: Seq<char>, documents: Seq<DocumentView>) -> Seq<Seq<char>> {
    documents.filter(is_encrypted()).map_values(|document: DocumentView| path)
}

/// The rotation requests that one file gives rise to. A file that could not
/// be decoded gives none.
pub open spec fn requests_of() -> spec_fn(ManifestFileView) -> Seq<Seq<char>> {
    |file: ManifestFileView|
        match file.contents {
            Ok(documents) => requests_among(file.path, documents),
            Err(_) => Seq::empty(),
        }
}

/// The rotation requests of a list of files, in reading order: one for
/// each encrypted document. That a file is to be rotated is found out
/// document by document, so a file with several encrypted documents is
/// requested several times.
pub open spec fn rotation_requests(files: Seq<ManifestFileView>) -> Seq<Seq<char>> {
    files.map_values(requests_of()).flatten()
}

/// The document at position `document` of the file at position `file` is
/// encrypted.
pub open spec fn encrypted_at(files: Seq<ManifestFileView>, file: int, document: int) -> bool {
    &&& 0 <= file < files.len()
    &&& files[file].contents is Ok
    &&& 0 <= document < files[file].contents->Ok_0.len()
    &&& files[file].contents->Ok_0[document].sops is Some
}

/// What is in one of the parts is in the whole, and the other way round.
proof fn lemma_flatten_contains<A>(parts: Seq<Seq<A>>, item: A)
    ensures
        parts.flatten().contains(item) <==> exists|index: int|
            0 <= index < parts.len() && (#[trigger] parts[index]).contains(item),
    decreases parts.len(),
{
    if parts.len() > 0 {
        let rest = parts.drop_first();
        lemma_flatten_contains(rest, item);
        vstd::seq_lib::lemma_seq_concat_contains_all_elements(parts.first(), rest.flatten(), item);
        if parts.flatten().contains(item) {
            if parts.first().contains(item) {
                assert(parts[0].contains(item));
            } else {
                let index = choose|index: int|
                    0 <= index < rest.len() && (#[trigger] rest[index]).contains(item);
                assert(parts[index + 1].contains(item));
            }
        }
        if exists|index: int| 0 <= index < parts.len() && (#[trigger] parts[index]).contains(item) {
            let index = choose|index: int|
                0 <= index < parts.len() && (#[trigger] parts[index]).contains(item);
            if index > 0 {
                assert(rest[index - 1].contains(item));
            }
        }
    }
}

/// The files that are requested for rotation are the files that hold an
/// encrypted document.
pub proof fn lemma_requested_files(files: Seq<ManifestFileView>, path: Seq<char>)
    ensures
        rotation_requests(files).contains(path) <==> exists|file: int, document: int|
            #[trigger] encrypted_at(files, file, document) && files[file].path == path,
{
    let parts = files.map_values(requests_of());
    lemma_flatten_contains(parts, path);
    if rotation_requests(files).contains(path) {
        let file = choose|file: int|
            0 <= file < parts.len() && (#[trigger] parts[file]).contains(path);
        let at = choose|at: int| 0 <= at < parts[file].len() && parts[file][at] == path;
        let documents = files[file].contents->Ok_0;
        let chosen = documents.filter(is_encrypted());
        assert(chosen.contains(chosen[at]));
        documents.lemma_filter_pred(is_encrypted(), at);
        documents.lemma_filter_contains_rev(is_encrypted(), chosen[at]);
        let document = choose|document: int|
            0 <= document < documents.len() && documents[document] == chosen[at];
        assert(encrypted_at(files, file, document) && files[file].path == path);
    }
    if exists|file: int, document: int|
        #[trigger] encrypted_at(files, file, document) && files[file].path == path {
        let (file, document) = choose|file: int, document: int|
            #[trigger] encrypted_at(files, file, document) && files[file].path == path;
        let documents = files[file].contents->Ok_0;
        let chosen = documents.filter(is_encrypted());
        documents.lemma_filter_contains(is_encrypted(), document);
        let at = choose|at: int| 0 <= at < chosen.len() && chosen[at] == documents[document];
        assert(parts[file][at] == path);
        assert(parts[file].contains(path));
    }
}

/// A file is rotated once, however many encrypted documents it holds: when
/// the rotation of `files` has finished, the tool was called exactly once
/// to decrypt a file that holds an encrypted document, and exactly once to
/// encrypt it if that call ended well, and else not at all.
pub proof fn lemma_file_rotated_once(
    files: Seq<ManifestFileView>,
    rotation: Rotation,
    file: int,
    document: int,
)
    requires
        rotation.well_formed(),
        rotation.requests() == rotation_requests(files),
        due(rotation.requests(), rotation.history()) is None,
        encrypted_at(files, file, document),
    ensures
        calls(rotation.history()).to_multiset().count(decrypt(files[file].path)) == 1,
        calls(rotation.history()).to_multiset().count(encrypt(files[file].path))
            == if rotation.history().contains(
            Exchange { call: decrypt(files[file].path), failure: None },
        ) {
            1nat
        } else {
            0nat
        },
{
    let path = files[file].path;
    lemma_requested_files(files, path);
    assert(encrypted_at(files, file, document) && files[file].path == path);
    rotation.lemma_orderly();
    lemma_rotation_invariant(rotation.requests(), rotation.history(), path);
    calls(rotation.history()).to_multiset_ensures();
}

/// Lists the rotation requests of `files`.
pub fn list_rotation_requests(files: &Vec<ManifestFile>) -> (requests: Vec<String>)
    ensures
        path_views(requests@) == rotation_requests(file_views(files@)),
{
    let ghost views = file_views(files@);
    let mut requests: Vec<String> = Vec::new();
    let mut i: usize = 0;
    proof {
        assert(views.take(0).map_values(requests_of()) =~= Seq::<Seq<Seq<char>>>::empty());
        assert(path_views(requests@) =~= views.take(0).map_values(requests_of()).flatten());
    }
    while i < files.len()
        invariant
            i <= files.len(),
            views == file_views(files@),
            path_views(requests@) == views.take(i as int).map_values(requests_of()).flatten(),
        decreases files.len() - i,
    {
        let file = &files[i];
        let ghost done = views.take(i as int).map_values(requests_of());
        proof {
            assert(views[i as int] == file@);
            assert(views.take(i as int + 1).map_values(requests_of()) =~= done.push(
                requests_of()(file@),
            ));
            done.lemma_flatten_push(requests_of()(file@));
        }
        match file.get_contents() {
            Err(_) => {
                proof {
                    assert(done.flatten() + Seq::<Seq<char>>::empty() =~= done.flatten());
                }
            },
            Ok(documents) => {
                let ghost all = document_views(documents@);
                let ghost path = file@.path;
                let mut j: usize = 0;
                proof {
                    assert(requests_among(path, all.take(0)) =~= Seq::<Seq<char>>::empty());
                    assert(done.flatten() + Seq::<Seq<char>>::empty() =~= done.flatten());
                }
                while j < documents.len()
                    invariant
                        j <= documents.len(),
                        all == document_views(documents@),
                        path == file@.path,
                        path_views(requests@) == done.flatten() + requests_among(
                            path,
                            all.take(j as int),
                        ),
                    decreases documents.len() - j,
                {
                    proof {
                        let read = all.take(j as int);
                        let document = all[j as int];
                        assert(document == documents@[j as int]@);
                        assert(all.take(j as int + 1) =~= read.push(document));
                        read.lemma_filter_push(document, is_encrypted());
                        if is_encrypted()(document) {
                            read.filter(is_encrypted()).lemma_push_map_commute(
                                |document: DocumentView| path,
                                document,
                            );
                        }
                    }
                    if documents[j].has_sops() {
                        let ghost before = path_views(requests@);
                        requests.push(file.get_path().to_owned());
                        proof {
                            assert(path_views(requests@) =~= before.push(path));
                            assert(path_views(requests@) =~= done.flatten() + requests_among(
                                path,
                                all.take(j as int + 1),
                            ));
                        }
                    }
                    j += 1;
                }
                proof {
                    assert(all.take(j as int) =~= all);
                }
            },
        }
        i += 1;
    }
    proof {
        assert(views.take(i as int) =~= views);
    }
    requests
}

/// A scan whose configuration was found valid: what to scan for, and the
/// key to rotate to if rotation was asked for.
pub struct ScanPlan {
    target_key: Option<String>,
}

/// What a run of a [`ScanPlan`] hands back: the report, and the rotation
/// that is to follow it, with no call of the tool made yet.
pub struct ScanOutcome {
    pub report: Report,
    pub rotation: Option<Rotation>,
}

impl ScanPlan {
    /// The key that the plan rotates to; `None` when it does not rotate.
    pub closed spec fn target_key(&self) -> Option<Seq<char>> {
        match self.target_key {
            Some(key) => Some(key@),
            None => None,
        }
    }

    /// Checks the configuration of a scan, before any file is looked at.
    ///
    /// Rotation needs a key to rotate to: to ask for it without one is a
    /// configuration error. A key that is given without rotation being
    /// asked for is not used.
    pub fn new(mode: ScanMode, target_key: Option<String>) -> (result: Result<ScanPlan, ScanError>)
        ensures
            result is Err <==> mode == ScanMode::ScanAndRotate && target_key is None,
            result matches Err(error) ==> error@ == ScanErrorView::Configuration,
            result matches Ok(plan) ==> plan.target_key() == match (mode, target_key) {
                (ScanMode::ScanAndRotate, Some(key)) => Some(key@),
                _ => None,
            },
    {
        match mode {
            ScanMode::Scan => Ok(ScanPlan { target_key: None }),
            ScanMode::ScanAndRotate => match target_key {
                Some(key) => Ok(ScanPlan { target_key: Some(key) }),
                None => Err(ScanError::Configuration),
            },
        }
    }

    /// Whether the plan rotates.
    pub fn rotates(&self) -> (rotates: bool)
        ensures
            rotates == self.target_key().is_some(),
    {
        self.target_key.is_some()
    }

    /// Scans `files` and, if the plan rotates, prepares the rotation.
    ///
    /// The rotation is handed back only together with the finished report,
    /// so no file is rewritten while it may still be read for the report.
    /// It holds one request for each encrypted document.
    pub fn run(&self, files: &Vec<ManifestFile>) -> (result: Result<ScanOutcome, ScanError>)
        ensures
            result is Ok <==> all_decoded(file_views(files@)),
            result matches Err(error) ==> exists|index: int|
                first_undecodable(file_views(files@), index) && error@ == parse_error(
                    file_views(files@),
                    index,
                ),
            result matches Ok(outcome) ==> {
                &&& outcome.report.well_formed()
                &&& outcome.report@ == report_of(file_views(files@))
                &&& outcome.rotation is Some <==> self.target_key() is Some
                &&& outcome.rotation matches Some(rotation) ==> {
                    &&& rotation.well_formed()
                    &&& Some(rotation.key()) == self.target_key()
                    &&& rotation.requests() == rotation_requests(file_views(files@))
                    &&& rotation.history() == Seq::<Exchange>::empty()
                }
            },
    {
        let report = match scan(files) {
            Ok(report) => report,
            Err(error) => {
                proof {
                    let index = choose|index: int|
                        first_undecodable(file_views(files@), index) && error@ == parse_error(
                            file_views(files@),
                            index,
                        );
                    assert(file_views(files@)[index].contents is Err);
                }
                return Err(error);
            },
        };
        let rotation = match &self.target_key {
            Some(key) => {
                let requests = list_rotation_requests(files);
                Some(rotate_kms_keys(key.as_str(), &requests))
            },
            None => None,
        };
        Ok(ScanOutcome { report, rotation })
    }
}

} // verus!
