//! Scanning of Kubernetes-style manifests that may be encrypted with SOPS.
//!
//! A scan takes the manifest files of a directory tree, each decoded into
//! its documents, and reports two things: which encryption keys are in use
//! and by which files, and which manifests are held by more than one file.
//! On request it also coordinates the rotation of the keys, so that every
//! file is decrypted and encrypted again once, however many of its
//! documents are encrypted.
//!
//! Reading the files and running the encryption tool are left to the
//! program that uses the library:
//!
//! - [`manifest`] holds the documents and their identity,
//! - [`files`] the decoded files,
//! - [`aggregate`] the two read-only passes over them,
//! - [`scan`] the scan as a whole and its report,
//! - [`rotation`] the coordinator of a rotation,
//! - [`render`] the report drawn as text,
//! - [`paths`] and [`groups`] the sets and mappings that the passes fill.

pub mod aggregate;
pub mod error;
pub mod files;
pub mod groups;
pub mod manifest;
pub mod paths;
pub mod render;
pub mod rotation;
pub mod scan;
