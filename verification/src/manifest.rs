//! Manifest documents and the identity by which they are compared.

use vstd::prelude::*;

verus! {

/// What a [`Metadata`] record stands for in contracts.
pub struct MetadataView {
    pub name: Seq<char>,
    pub namespace: Option<Seq<char>>,
}

/// What a [`Sops`] record stands for in contracts.
pub struct SopsView {
    /// The key identifier: the first entry of the document's key list.
    pub arn: Seq<char>,
}

/// The identity of a [`Document`]: its kind, its whole metadata record and
/// its whole encryption record, or the absence of one.
///
/// Two documents are the same manifest exactly when their identities are
/// equal. Documents that differ only in how they are encrypted therefore
/// count as different manifests.
pub struct DocumentView {
    pub kind: Seq<char>,
    pub meta: MetadataView,
    pub sops: Option<SopsView>,
}

impl DocumentView {
    /// The identifier of the key the document is encrypted with, if any.
    pub open spec fn key_identifier(self) -> Option<Seq<char>> {
        match self.sops {
            Some(sops) => Some(sops.arn),
            None => None,
        }
    }
}

/// What an optional string stands for in contracts.
pub open spec fn text_view(text: Option<String>) -> Option<Seq<char>> {
    match text {
        Some(text) => Some(text@),
        None => None,
    }
}

/// Name and namespace of a manifest.
#[derive(Debug, Eq, Hash)]
pub struct Metadata {
    name: String,
    namespace: Option<String>,
}

/// The encryption record of a manifest.
#[derive(Debug, Eq, Hash)]
pub struct Sops {
    arn: String,
}

/// One manifest, as decoded from one YAML document.
#[derive(Debug, Eq, Hash)]
pub struct Document {
    /// The kind of the manifest, usually a "Deployment".
    kind: String,
    /// Name and namespace.
    meta: Metadata,
    /// The encryption record; absent when the manifest is not encrypted.
    sops: Option<Sops>,
}

impl View for Metadata {
    type V = MetadataView;

    closed spec fn view(&self) -> MetadataView {
        MetadataView { name: self.name@, namespace: text_view(self.namespace) }
    }
}

impl View for Sops {
    type V = SopsView;

    closed spec fn view(&self) -> SopsView {
        SopsView { arn: self.arn@ }
    }
}

impl View for Document {
    type V = DocumentView;

    closed spec fn view(&self) -> DocumentView {
        DocumentView {
            kind: self.kind@,
            meta: self.meta@,
            sops: match self.sops {
                Some(sops) => Some(sops@),
                None => None,
            },
        }
    }
}

impl Metadata {
    pub fn new(name: String, namespace: Option<String>) -> (meta: Metadata)
        ensures
            meta@ == (MetadataView { name: name@, namespace: text_view(namespace) }),
    {
        Metadata { name, namespace }
    }

    /// The name of the manifest.
    pub fn get_name(&self) -> (name: &str)
        ensures
            name@ == self@.name,
    {
        self.name.as_str()
    }

    /// The namespace of the manifest, if it names one.
    pub fn get_namespace(&self) -> (namespace: Option<&str>)
        ensures
            namespace.is_some() == self@.namespace.is_some(),
            namespace matches Some(ns) ==> ns@ == self@.namespace.unwrap(),
    {
        match &self.namespace {
            Some(ns) => Some(ns.as_str()),
            None => None,
        }
    }
}

impl Clone for Metadata {
    fn clone(&self) -> (copy: Metadata)
        ensures
            copy@ == self@,
    {
        let namespace = match &self.namespace {
            Some(ns) => Some(ns.clone()),
            None => None,
        };
        Metadata { name: self.name.clone(), namespace }
    }
}

impl PartialEq for Metadata {
    fn eq(&self, other: &Metadata) -> (same: bool) {
        let same_namespace = match (&self.namespace, &other.namespace) {
            (Some(a), Some(b)) => *a == *b,
            (None, None) => true,
            _ => false,
        };
        self.name == other.name && same_namespace
    }
}

impl vstd::std_specs::cmp::PartialEqSpecImpl for Metadata {
    open spec fn obeys_eq_spec() -> bool {
        true
    }

    open spec fn eq_spec(&self, other: &Metadata) -> bool {
        self@ == other@
    }
}

impl Sops {
    pub fn new(arn: String) -> (sops: Sops)
        ensures
            sops@ == (SopsView { arn: arn@ }),
    {
        Sops { arn }
    }

    /// The identifier of the key.
    pub fn get_arn(&self) -> (arn: &str)
        ensures
            arn@ == self@.arn,
    {
        self.arn.as_str()
    }
}

impl Clone for Sops {
    fn clone(&self) -> (copy: Sops)
        ensures
            copy@ == self@,
    {
        Sops { arn: self.arn.clone() }
    }
}

impl PartialEq for Sops {
    fn eq(&self, other: &Sops) -> (same: bool) {
        self.arn == other.arn
    }
}

impl vstd::std_specs::cmp::PartialEqSpecImpl for Sops {
    open spec fn obeys_eq_spec() -> bool {
        true
    }

    open spec fn eq_spec(&self, other: &Sops) -> bool {
        self@ == other@
    }
}

impl Document {
    pub fn new(kind: String, meta: Metadata, sops: Option<Sops>) -> (document: Document)
        ensures
            document@ == (DocumentView {
                kind: kind@,
                meta: meta@,
                sops: match sops {
                    Some(sops) => Some(sops@),
                    None => None,
                },
            }),
    {
        Document { kind, meta, sops }
    }

    /// The kind of the manifest.
    pub fn get_kind(&self) -> (kind: &str)
        ensures
            kind@ == self@.kind,
    {
        self.kind.as_str()
    }

    /// Name and namespace of the manifest.
    pub fn get_meta(&self) -> (meta: &Metadata)
        ensures
            meta@ == self@.meta,
    {
        &self.meta
    }

    /// Whether the manifest is encrypted.
    pub fn has_sops(&self) -> (encrypted: bool)
        ensures
            encrypted == self@.sops.is_some(),
    {
        self.sops.is_some()
    }

    /// The encryption record of the manifest, if it is encrypted.
    pub fn get_sops(&self) -> (sops: &Option<Sops>)
        ensures
            sops.is_some() == self@.sops.is_some(),
            *sops matches Some(s) ==> s@ == self@.sops.unwrap(),
    {
        &self.sops
    }
}

impl Clone for Document {
    fn clone(&self) -> (copy: Document)
        ensures
            copy@ == self@,
    {
        let sops = match &self.sops {
            Some(s) => Some(s.clone()),
            None => None,
        };
        Document { kind: self.kind.clone(), meta: self.meta.clone(), sops }
    }
}

impl PartialEq for Document {
    fn eq(&self, other: &Document) -> (same: bool) {
        let same_sops = match (&self.sops, &other.sops) {
            (Some(a), Some(b)) => *a == *b,
            (None, None) => true,
            _ => false,
        };
        self.kind == other.kind && self.meta == other.meta && same_sops
    }
}

impl vstd::std_specs::cmp::PartialEqSpecImpl for Document {
    open spec fn obeys_eq_spec() -> bool {
        true
    }

    open spec fn eq_spec(&self, other: &Document) -> bool {
        self@ == other@
    }
}

/// The metadata of a manifest as it was read, before it is known to be
/// complete.
#[derive(Debug)]
pub struct RawMetadata {
    pub name: Option<String>,
    pub namespace: Option<String>,
}

/// A manifest as it was read, before it is known to be complete: any of the
/// fields may be missing.
#[derive(Debug)]
pub struct RawDocument {
    pub kind: Option<String>,
    pub metadata: Option<RawMetadata>,
    /// The first entry of the key list, when the manifest is encrypted.
    pub key_identifier: Option<String>,
}

/// What a [`RawMetadata`] record stands for in contracts.
pub struct RawMetadataView {
    pub name: Option<Seq<char>>,
    pub namespace: Option<Seq<char>>,
}

/// What a [`RawDocument`] stands for in contracts.
pub struct RawDocumentView {
    pub kind: Option<Seq<char>>,
    pub metadata: Option<RawMetadataView>,
    pub key_identifier: Option<Seq<char>>,
}

impl View for RawMetadata {
    type V = RawMetadataView;

    open spec fn view(&self) -> RawMetadataView {
        RawMetadataView { name: text_view(self.name), namespace: text_view(self.namespace) }
    }
}

impl View for RawDocument {
    type V = RawDocumentView;

    open spec fn view(&self) -> RawDocumentView {
        RawDocumentView {
            kind: text_view(self.kind),
            metadata: match self.metadata {
                Some(metadata) => Some(metadata@),
                None => None,
            },
            key_identifier: text_view(self.key_identifier),
        }
    }
}

/// A field that a manifest must have and that was not there.
#[derive(Debug, Clone, Copy, PartialEq, Eq, Structural)]
pub enum MissingField {
    Kind,
    Metadata,
    Name,
}

/// The manifest that a raw document decodes to, or the first required field
/// that it lacks: the kind, the metadata, or the name in the metadata.
///
/// Namespace and encryption may be absent: a manifest without encryption is
/// an ordinary manifest.
pub open spec fn decoded(raw: RawDocumentView) -> Result<DocumentView, MissingField> {
    if raw.kind is None {
        Err(MissingField::Kind)
    } else if raw.metadata is None {
        Err(MissingField::Metadata)
    } else if raw.metadata->Some_0.name is None {
        Err(MissingField::Name)
    } else {
        Ok(
            DocumentView {
                kind: raw.kind->Some_0,
                meta: MetadataView {
                    name: raw.metadata->Some_0.name->Some_0,
                    namespace: raw.metadata->Some_0.namespace,
                },
                sops: match raw.key_identifier {
                    Some(arn) => Some(SopsView { arn }),
                    None => None,
                },
            },
        )
    }
}

impl MissingField {
    /// The words that report the missing field.
    pub open spec fn report(self) -> Seq<char> {
        match self {
            MissingField::Kind => "missing field `kind`"@,
            MissingField::Metadata => "missing field `metadata`"@,
            MissingField::Name => "missing field `name`"@,
        }
    }

    /// The words that report the missing field, as a string.
    pub fn message(&self) -> (message: String)
        ensures
            message@ == self.report(),
    {
        match self {
            MissingField::Kind => "missing field `kind`".to_owned(),
            MissingField::Metadata => "missing field `metadata`".to_owned(),
            MissingField::Name => "missing field `name`".to_owned(),
        }
    }
}

impl Document {
    /// Makes a manifest of a raw document, if it has all that a manifest
    /// must have.
    pub fn decode(raw: &RawDocument) -> (result: Result<Document, MissingField>)
        ensures
            match result {
                Ok(document) => decoded(raw@) == Ok::<DocumentView, MissingField>(document@),
                Err(missing) => decoded(raw@) == Err::<DocumentView, MissingField>(missing),
            },
    {
        let kind = match &raw.kind {
            Some(kind) => kind.clone(),
            None => {
                return Err(MissingField::Kind);
            },
        };
        let metadata = match &raw.metadata {
            Some(metadata) => metadata,
            None => {
                return Err(MissingField::Metadata);
            },
        };
        let name = match &metadata.name {
            Some(name) => name.clone(),
            None => {
                return Err(MissingField::Name);
            },
        };
        let namespace = match &metadata.namespace {
            Some(namespace) => Some(namespace.clone()),
            None => None,
        };
        let sops = match &raw.key_identifier {
            Some(arn) => Some(Sops { arn: arn.clone() }),
            None => None,
        };
        Ok(Document { kind, meta: Metadata { name, namespace }, sops })
    }
}

} // verus!
