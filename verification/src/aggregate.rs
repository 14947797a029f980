//! The two read-only passes over the manifest files: which encryption keys
//! are in use, and which manifests occur in which files.

use vstd::prelude::*;
use crate::error::{ScanError, ScanErrorView};
use crate::files::{file_views, ManifestFile, ManifestFileView};
use crate::groups::{GroupKey, Groups};
use crate::manifest::{Document, DocumentView};

verus! {

impl GroupKey for String {
    type Id = Seq<char>;

    open spec fn id(&self) -> Seq<char> {
        self@
    }

    fn same(&self, other: &String) -> (same: bool) {
        *self == *other
    }
}

impl GroupKey for Document {
    type Id = DocumentView;

    open spec fn id(&self) -> DocumentView {
        self@
    }

    fn same(&self, other: &Document) -> (same: bool) {
        *self == *other
    }
}

/// For each encryption key, the files that hold a document encrypted with it.
pub type FileKeyUsage = Groups<String>;

/// For each manifest identity, the files that hold a document of that identity.
pub type DuplicateGroups = Groups<Document>;

/// The document at position `document` of the file at position `file` is
/// filed under `id`.
pub open spec fn filed<Id>(
    files: Seq<ManifestFileView>,
    label: spec_fn(DocumentView) -> Option<Id>,
    file: int,
    document: int,
    id: Id,
) -> bool {
    &&& 0 <= file < files.len()
    &&& files[file].contents is Ok
    &&& 0 <= document < files[file].contents->Ok_0.len()
    &&& label(files[file].contents->Ok_0[document]) == Some(id)
}

/// Position (`file`, `document`) comes before position (`files_done`,
/// `documents_done`) in reading order.
pub open spec fn read_before(file: int, document: int, files_done: int, documents_done: int) -> bool {
    file < files_done || (file == files_done && document < documents_done)
}

/// The mapping that files every document read before position (`files_done`,
/// `documents_done`) under its label, by the path of its file.
pub open spec fn grouped_before<Id>(
    files: Seq<ManifestFileView>,
    label: spec_fn(DocumentView) -> Option<Id>,
    files_done: int,
    documents_done: int,
) -> Map<Id, Set<Seq<char>>> {
    Map::new(
        |id: Id|
            exists|file: int, document: int|
                #[trigger] filed(files, label, file, document, id) && read_before(
                    file,
                    document,
                    files_done,
                    documents_done,
                ),
        |id: Id|
            Set::new(
                |path: Seq<char>|
                    exists|file: int, document: int|
                        #[trigger] filed(files, label, file, document, id) && read_before(
                            file,
                            document,
                            files_done,
                            documents_done,
                        ) && files[file].path == path,
            ),
    )
}

/// The mapping that files every document of every decoded file under its
/// label, by the path of its file. A document without a label is left out.
pub open spec fn grouped<Id>(
    files: Seq<ManifestFileView>,
    label: spec_fn(DocumentView) -> Option<Id>,
) -> Map<Id, Set<Seq<char>>> {
    Map::new(
        |id: Id| exists|file: int, document: int| filed(files, label, file, document, id),
        |id: Id|
            Set::new(
                |path: Seq<char>|
                    exists|file: int, document: int|
                        #[trigger] filed(files, label, file, document, id) && files[file].path
                            == path,
            ),
    )
}

/// The label by which the key pass files a document: its key identifier.
pub open spec fn key_label() -> spec_fn(DocumentView) -> Option<Seq<char>> {
    |document: DocumentView| document.key_identifier()
}

/// The label by which the duplicate pass files a document: its identity.
pub open spec fn identity_label() -> spec_fn(DocumentView) -> Option<DocumentView> {
    |document: DocumentView| Some(document)
}

/// Which files use which encryption key: a key maps to the paths of the
/// files that hold at least one document encrypted with it.
pub open spec fn key_usage(files: Seq<ManifestFileView>) -> Map<Seq<char>, Set<Seq<char>>> {
    grouped(files, key_label())
}

/// Which files hold which manifest: an identity maps to the paths of the
/// files that hold at least one document of that identity.
pub open spec fn duplicate_groups(files: Seq<ManifestFileView>) -> Map<
    DocumentView,
    Set<Seq<char>>,
> {
    grouped(files, identity_label())
}

/// The file at `index` is the first that could not be decoded.
pub open spec fn first_undecodable(files: Seq<ManifestFileView>, index: int) -> bool {
    &&& 0 <= index < files.len()
    &&& files[index].contents is Err
    &&& forall|earlier: int| 0 <= earlier < index ==> (#[trigger] files[earlier]).contents is Ok
}

/// Every file was decoded.
pub open spec fn all_decoded(files: Seq<ManifestFileView>) -> bool {
    forall|index: int| 0 <= index < files.len() ==> (#[trigger] files[index]).contents is Ok
}

/// The error that names the undecodable file at `index`.
pub open spec fn parse_error(files: Seq<ManifestFileView>, index: int) -> ScanErrorView {
    ScanErrorView::Parse { path: files[index].path, cause: files[index].contents->Err_0 }
}

/// How a pass picks the key under which a document is filed.
pub trait Grouping {
    type Key: GroupKey;

    /// The identity under which a document is filed, if it is filed at all.
    spec fn label() -> spec_fn(DocumentView) -> Option<<Self::Key as GroupKey>::Id>;

    fn key_of(document: &Document) -> (key: Option<Self::Key>)
        ensures
            match key {
                Some(k) => Self::label()(document@) == Some(k.id()),
                None => Self::label()(document@) is None,
            },
    ;
}

/// Files encrypted documents under the identifier of their key.
pub struct ByKeyIdentifier;

/// Files every document under its identity.
pub struct ByIdentity;

impl Grouping for ByKeyIdentifier {
    type Key = String;

    open spec fn label() -> spec_fn(DocumentView) -> Option<Seq<char>> {
        key_label()
    }

    fn key_of(document: &Document) -> (key: Option<String>) {
        match document.get_sops() {
            Some(sops) => Some(sops.get_arn().to_owned()),
            None => None,
        }
    }
}

impl Grouping for ByIdentity {
    type Key = Document;

    open spec fn label() -> spec_fn(DocumentView) -> Option<DocumentView> {
        identity_label()
    }

    fn key_of(document: &Document) -> (key: Option<Document>) {
        Some(document.clone())
    }
}

/// Before anything is read, nothing is filed.
proof fn lemma_grouped_start<Id>(
    files: Seq<ManifestFileView>,
    label: spec_fn(DocumentView) -> Option<Id>,
)
    ensures
        grouped_before(files, label, 0, 0) == Map::<Id, Set<Seq<char>>>::empty(),
{
    assert(grouped_before(files, label, 0, 0) =~= Map::<Id, Set<Seq<char>>>::empty());
}

/// Reading one more document files it under its label, if it has one.
proof fn lemma_grouped_step<Id>(
    files: Seq<ManifestFileView>,
    label: spec_fn(DocumentView) -> Option<Id>,
    file: int,
    document: int,
)
    requires
        0 <= file < files.len(),
        files[file].contents is Ok,
        0 <= document < files[file].contents->Ok_0.len(),
    ensures
        grouped_before(files, label, file, document + 1) == match label(
            files[file].contents->Ok_0[document],
        ) {
            Some(id) => {
                let read = grouped_before(files, label, file, document);
                let known = if read.dom().contains(id) {
                    read[id]
                } else {
                    Set::empty()
                };
                read.insert(id, known.insert(files[file].path))
            },
            None => grouped_before(files, label, file, document),
        },
{
    let read = grouped_before(files, label, file, document);
    let next = grouped_before(files, label, file, document + 1);
    let target = match label(files[file].contents->Ok_0[document]) {
        Some(id) => {
            let known = if read.dom().contains(id) {
                read[id]
            } else {
                Set::empty()
            };
            assert(filed(files, label, file, document, id));
            read.insert(id, known.insert(files[file].path))
        },
        None => read,
    };
    assert(next =~~= target);
}

/// Once a file has no document left to read, reading goes on with the next file.
proof fn lemma_grouped_next<Id>(
    files: Seq<ManifestFileView>,
    label: spec_fn(DocumentView) -> Option<Id>,
    file: int,
    document: int,
)
    requires
        0 <= file < files.len(),
        files[file].contents is Ok ==> document >= files[file].contents->Ok_0.len(),
    ensures
        grouped_before(files, label, file, document) == grouped_before(files, label, file + 1, 0),
{
    let here = grouped_before(files, label, file, document);
    let next = grouped_before(files, label, file + 1, 0);
    assert(here =~~= next);
}

/// Once every file is read, every document is filed.
proof fn lemma_grouped_end<Id>(
    files: Seq<ManifestFileView>,
    label: spec_fn(DocumentView) -> Option<Id>,
)
    ensures
        grouped_before(files, label, files.len() as int, 0) == grouped(files, label),
{
    let read = grouped_before(files, label, files.len() as int, 0);
    let all = grouped(files, label);
    assert(read =~~= all);
}

/// Files the documents of `files` the way `G` says.
///
/// The pass stops at the first file that could not be decoded and fails
/// with the error that names it. Otherwise every document of every file is
/// filed.
pub fn group_files<G: Grouping>(files: &Vec<ManifestFile>) -> (result: Result<
    Groups<G::Key>,
    ScanError,
>)
    ensures
        result is Ok <==> all_decoded(file_views(files@)),
        result matches Ok(groups) ==> groups.well_formed() && groups@ == grouped(
            file_views(files@),
            G::label(),
        ),
        result matches Err(error) ==> exists|index: int|
            first_undecodable(file_views(files@), index) && error@ == parse_error(
                file_views(files@),
                index,
            ),
{
    let ghost views = file_views(files@);
    let ghost label = G::label();
    let mut groups = Groups::<G::Key>::new();
    proof {
        lemma_grouped_start(views, label);
    }
    let mut i: usize = 0;
    while i < files.len()
        invariant
            i <= files.len(),
            views == file_views(files@),
            label == G::label(),
            groups.well_formed(),
            groups@ == grouped_before(views, label, i as int, 0),
            forall|earlier: int| 0 <= earlier < i ==> (#[trigger] views[earlier]).contents is Ok,
        decreases files.len() - i,
    {
        let file = &files[i];
        assert(views[i as int] == file@);
        match file.get_contents() {
            Err(cause) => {
                let error = ScanError::Parse {
                    path: file.get_path().to_owned(),
                    cause: cause.to_owned(),
                };
                proof {
                    assert(first_undecodable(views, i as int));
                    assert(error@ == parse_error(views, i as int));
                }
                return Err(error);
            },
            Ok(documents) => {
                let mut j: usize = 0;
                while j < documents.len()
                    invariant
                        i < files.len(),
                        j <= documents.len(),
                        views == file_views(files@),
                        label == G::label(),
                        file == files@[i as int],
                        views[i as int] == file@,
                        file@.contents == Ok::<Seq<DocumentView>, Seq<char>>(
                            crate::files::document_views(documents@),
                        ),
                        groups.well_formed(),
                        groups@ == grouped_before(views, label, i as int, j as int),
                    decreases documents.len() - j,
                {
                    proof {
                        lemma_grouped_step(views, label, i as int, j as int);
                        assert(views[i as int].contents->Ok_0[j as int] == documents@[j as int]@);
                    }
                    match G::key_of(&documents[j]) {
                        Some(key) => {
                            groups.add(key, file.get_path());
                        },
                        None => {},
                    }
                    j += 1;
                }
                proof {
                    lemma_grouped_next(views, label, i as int, j as int);
                }
            },
        }
        i += 1;
    }
    proof {
        lemma_grouped_end(views, label);
        assert(all_decoded(views));
    }
    Ok(groups)
}

/// The key pass: which encryption keys are in use, and in which files.
///
/// A file is listed once under a key however many of its documents are
/// encrypted with that key. Documents that are not encrypted are passed over.
pub fn get_kms_keys(files: &Vec<ManifestFile>) -> (result: Result<FileKeyUsage, ScanError>)
    ensures
        result is Ok <==> all_decoded(file_views(files@)),
        result matches Ok(usage) ==> usage.well_formed() && usage@ == key_usage(
            file_views(files@),
        ),
        result matches Err(error) ==> exists|index: int|
            first_undecodable(file_views(files@), index) && error@ == parse_error(
                file_views(files@),
                index,
            ),
{
    group_files::<ByKeyIdentifier>(files)
}

/// The duplicate pass: which manifests occur, and in which files.
///
/// Every document is filed, encrypted or not, and groups with a single file
/// are kept: what counts as duplicated is decided when the report is made.
pub fn get_dup_documents(files: &Vec<ManifestFile>) -> (result: Result<
    DuplicateGroups,
    ScanError,
>)
    ensures
        result is Ok <==> all_decoded(file_views(files@)),
        result matches Ok(groups) ==> groups.well_formed() && groups@ == duplicate_groups(
            file_views(files@),
        ),
        result matches Err(error) ==> exists|index: int|
            first_undecodable(file_views(files@), index) && error@ == parse_error(
                file_views(files@),
                index,
            ),
{
    group_files::<ByIdentity>(files)
}

/// A file that holds documents encrypted with a key is recorded under that
/// key, and it is listed there once, however many such documents it holds.
pub proof fn lemma_file_listed_once(
    usage: FileKeyUsage,
    files: Seq<ManifestFileView>,
    file: int,
    document: int,
    key: Seq<char>,
)
    requires
        usage.well_formed(),
        usage@ == key_usage(files),
        filed(files, key_label(), file, document, key),
    ensures
        key_usage(files).dom().contains(key),
        key_usage(files)[key].contains(files[file].path),
        usage.ids().contains(key),
        usage.listing(usage.ids().index_of(key)).to_multiset().count(files[file].path) == 1,
{
    let path = files[file].path;
    assert(filed(files, key_label(), file, document, key) && files[file].path == path);
    assert(key_usage(files).dom().contains(key));
    assert(key_usage(files)[key].contains(path));
    assert(usage@.dom().contains(key));
    let group = usage.ids().index_of(key);
    usage.lemma_group(group);
    let listing = usage.listing(group);
    assert(listing.to_set().contains(path));
    listing.lemma_multiset_has_no_duplicates();
    listing.to_multiset_ensures();
}

/// Two documents of one identity are filed in one group, and that group
/// holds the files of both.
pub proof fn lemma_same_identity_one_group(
    files: Seq<ManifestFileView>,
    first_file: int,
    first_document: int,
    second_file: int,
    second_document: int,
    identity: DocumentView,
)
    requires
        filed(files, identity_label(), first_file, first_document, identity),
        filed(files, identity_label(), second_file, second_document, identity),
    ensures
        duplicate_groups(files).dom().contains(identity),
        duplicate_groups(files)[identity].contains(files[first_file].path),
        duplicate_groups(files)[identity].contains(files[second_file].path),
{
    assert(filed(files, identity_label(), first_file, first_document, identity)
        && files[first_file].path == files[first_file].path);
    assert(filed(files, identity_label(), second_file, second_document, identity)
        && files[second_file].path == files[second_file].path);
}

/// Two documents that differ in their encryption, be it only there, have
/// different identities and so different groups; and a group holds only
/// files with a document of exactly the group's identity.
pub proof fn lemma_encryption_separates(
    files: Seq<ManifestFileView>,
    first: DocumentView,
    second: DocumentView,
    path: Seq<char>,
)
    requires
        first.sops != second.sops,
        duplicate_groups(files).dom().contains(second),
        duplicate_groups(files)[second].contains(path),
    ensures
        first != second,
        exists|file: int, document: int|
            0 <= file < files.len() && files[file].path == path && files[file].contents is Ok && 0
                <= document < files[file].contents->Ok_0.len()
                && #[trigger] files[file].contents->Ok_0[document] == second,
{
    let (file, document) = choose|file: int, document: int|
        #[trigger] filed(files, identity_label(), file, document, second) && files[file].path
            == path;
    assert(files[file].contents->Ok_0[document] == second);
}

} // verus!
