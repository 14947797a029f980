//! Manifest files as the scan receives them: a path and what was decoded
//! from the file's contents.

use vstd::prelude::*;
use vstd::string::StringExecFns;
use crate::error::{ScanError, ScanErrorView};
use crate::manifest::{decoded, Document, DocumentView, RawDocument, RawDocumentView};

verus! {

/// One manifest file: its path and either the documents decoded from it, in
/// the order of the file, or the reason why it could not be decoded.
///
/// A file is decoded as a whole. One malformed document, or one that lacks
/// its kind or its name, makes the whole file undecodable.
#[derive(Debug)]
pub struct ManifestFile {
    path: String,
    contents: Result<Vec<Document>, String>,
}

/// What a [`ManifestFile`] stands for in contracts.
pub struct ManifestFileView {
    pub path: Seq<char>,
    pub contents: Result<Seq<DocumentView>, Seq<char>>,
}

/// The identities of a list of documents.
pub open spec fn document_views(documents: Seq<Document>) -> Seq<DocumentView> {
    documents.map_values(|document: Document| document@)
}

/// What a list of files stands for in contracts.
pub open spec fn file_views(files: Seq<ManifestFile>) -> Seq<ManifestFileView> {
    files.map_values(|file: ManifestFile| file@)
}

/// What a list of raw documents stands for in contracts.
pub open spec fn raw_views(documents: Seq<RawDocument>) -> Seq<RawDocumentView> {
    documents.map_values(|document: RawDocument| document@)
}

/// Every raw document has all that a manifest must have.
pub open spec fn all_complete(documents: Seq<RawDocumentView>) -> bool {
    forall|index: int| 0 <= index < documents.len() ==> decoded(#[trigger] documents[index]) is Ok
}

/// The raw document at `index` is the first that lacks a required field.
pub open spec fn first_incomplete(documents: Seq<RawDocumentView>, index: int) -> bool {
    &&& 0 <= index < documents.len()
    &&& decoded(documents[index]) is Err
    &&& forall|earlier: int| 0 <= earlier < index ==> decoded(#[trigger] documents[earlier]) is Ok
}

/// What the raw documents of a file decode to: the manifests, when every
/// raw document is complete, and else the report of what the first
/// incomplete one lacks.
pub open spec fn decoded_contents(documents: Seq<RawDocumentView>) -> Result<
    Seq<DocumentView>,
    Seq<char>,
> {
    if all_complete(documents) {
        Ok(documents.map_values(|raw: RawDocumentView| decoded(raw)->Ok_0))
    } else {
        let index = choose|index: int| first_incomplete(documents, index);
        Err(decoded(documents[index])->Err_0.report())
    }
}

/// The first incomplete raw document decides what the contents decode to.
pub proof fn lemma_first_incomplete(documents: Seq<RawDocumentView>, index: int)
    requires
        first_incomplete(documents, index),
    ensures
        decoded_contents(documents) == Err::<Seq<DocumentView>, Seq<char>>(
            decoded(documents[index])->Err_0.report(),
        ),
{
    assert(!all_complete(documents));
    let chosen = choose|chosen: int| first_incomplete(documents, chosen);
    if chosen < index {
        assert(decoded(documents[chosen]) is Ok);
    }
    if index < chosen {
        assert(decoded(documents[index]) is Ok);
    }
}

impl View for ManifestFile {
    type V = ManifestFileView;

    closed spec fn view(&self) -> ManifestFileView {
        ManifestFileView {
            path: self.path@,
            contents: match self.contents {
                Ok(documents) => Ok(document_views(documents@)),
                Err(cause) => Err(cause@),
            },
        }
    }
}

impl ManifestFile {
    /// A file that was decoded into `documents`.
    pub fn decoded(path: String, documents: Vec<Document>) -> (file: ManifestFile)
        ensures
            file@.path == path@,
            file@.contents == Ok::<Seq<DocumentView>, Seq<char>>(document_views(documents@)),
    {
        ManifestFile { path, contents: Ok(documents) }
    }

    /// A file that could not be decoded, and why.
    pub fn undecodable(path: String, cause: String) -> (file: ManifestFile)
        ensures
            file@.path == path@,
            file@.contents == Err::<Seq<DocumentView>, Seq<char>>(cause@),
    {
        ManifestFile { path, contents: Err(cause) }
    }

    /// Decodes a file from the raw documents read from it.
    ///
    /// The file is decoded if every raw document is complete. Else it is
    /// undecodable, and the cause is the report of what the first
    /// incomplete document lacks.
    pub fn decode(path: String, documents: &Vec<RawDocument>) -> (file: ManifestFile)
        ensures
            file@.path == path@,
            file@.contents == decoded_contents(raw_views(documents@)),
    {
        let ghost raws = raw_views(documents@);
        let mut decoded_documents: Vec<Document> = Vec::new();
        let mut i: usize = 0;
        while i < documents.len()
            invariant
                i <= documents.len(),
                raws == raw_views(documents@),
                decoded_documents@.len() == i,
                forall|j: int| 0 <= j < i ==> decoded(#[trigger] raws[j]) is Ok,
                forall|j: int|
                    0 <= j < i ==> (#[trigger] decoded_documents@[j])@ == decoded(raws[j])->Ok_0,
            decreases documents.len() - i,
        {
            assert(raws[i as int] == documents@[i as int]@);
            match Document::decode(&documents[i]) {
                Ok(document) => {
                    decoded_documents.push(document);
                },
                Err(missing) => {
                    proof {
                        assert(first_incomplete(raws, i as int));
                        lemma_first_incomplete(raws, i as int);
                    }
                    return ManifestFile { path, contents: Err(missing.message()) };
                },
            }
            i += 1;
        }
        proof {
            assert(all_complete(raws));
            assert(document_views(decoded_documents@) =~= raws.map_values(
                |raw: RawDocumentView| decoded(raw)->Ok_0,
            ));
        }
        ManifestFile { path, contents: Ok(decoded_documents) }
    }

    /// The path of the file.
    pub fn get_path(&self) -> (path: &str)
        ensures
            path@ == self@.path,
    {
        self.path.as_str()
    }

    /// The documents of the file, or the reason why there are none.
    pub fn get_contents(&self) -> (contents: Result<&Vec<Document>, &str>)
        ensures
            match contents {
                Ok(documents) => self@.contents == Ok::<Seq<DocumentView>, Seq<char>>(
                    document_views(documents@),
                ),
                Err(cause) => self@.contents == Err::<Seq<DocumentView>, Seq<char>>(cause@),
            },
    {
        match &self.contents {
            Ok(documents) => Ok(documents),
            Err(cause) => Err(cause.as_str()),
        }
    }
}

/// The pattern that matches the manifest files below the directory `dir`:
/// every file, at any depth, whose name ends in `-sops.yml`.
pub fn manifest_pattern(dir: &str) -> (pattern: String)
    ensures
        pattern@ == dir@ + "/**/*-sops.yml"@,
{
    let mut pattern = dir.to_owned();
    pattern.append("/**/*-sops.yml");
    pattern
}

/// The entry at `index` is the first that the listing failed on.
pub open spec fn first_unlisted(entries: Seq<Result<String, String>>, index: int) -> bool {
    &&& 0 <= index < entries.len()
    &&& entries[index] is Err
    &&& forall|earlier: int| 0 <= earlier < index ==> (#[trigger] entries[earlier]) is Ok
}

/// Collects the paths that a listing of files produced.
///
/// Each entry is a path that was found or the reason why the listing
/// failed at that point. The paths come back in their order if there is no
/// failure among the entries; else the first failure is the error.
pub fn paths_to_vec(entries: &Vec<Result<String, String>>) -> (result: Result<
    Vec<String>,
    ScanError,
>)
    ensures
        result is Ok <==> forall|index: int|
            0 <= index < entries@.len() ==> (#[trigger] entries@[index]) is Ok,
        result matches Ok(paths) ==> paths@.len() == entries@.len() && forall|index: int|
            0 <= index < paths@.len() ==> (#[trigger] paths@[index])@ == entries@[index]->Ok_0@,
        result matches Err(error) ==> exists|index: int|
            first_unlisted(entries@, index) && error@ == (ScanErrorView::Discovery {
                cause: entries@[index]->Err_0@,
            }),
{
    let mut paths: Vec<String> = Vec::new();
    let mut i: usize = 0;
    while i < entries.len()
        invariant
            i <= entries.len(),
            paths@.len() == i,
            forall|index: int| 0 <= index < i ==> (#[trigger] entries@[index]) is Ok,
            forall|index: int|
                0 <= index < i ==> (#[trigger] paths@[index])@ == entries@[index]->Ok_0@,
        decreases entries.len() - i,
    {
        match &entries[i] {
            Ok(path) => {
                paths.push(path.clone());
            },
            Err(cause) => {
                let error = ScanError::Discovery { cause: cause.clone() };
                proof {
                    assert(first_unlisted(entries@, i as int));
                }
                return Err(error);
            },
        }
        i += 1;
    }
    Ok(paths)
}

} // verus!
