//! Descriptions of files: of a target, and of a metadata document.
use vstd::prelude::*;
use crate::order::{find_repeated_key, has_duplicate_key};

verus! {

/// A free-form JSON value, carried through unread.
#[verifier::external_type_specification]
#[verifier::external_body]
pub struct ExValue(serde_json::Value);

/// A target file: its length in bytes, its hashes by algorithm, and custom
/// fields.
pub struct TargetDescription {
    pub length: u64,
    pub hashes: Vec<(String, String)>,
    pub custom: Vec<(String, serde_json::Value)>,
}

/// A metadata document: its version, its length if known, and its hashes by
/// algorithm.
pub struct MetadataDescription {
    pub version: u32,
    pub length: Option<usize>,
    pub hashes: Vec<(String, String)>,
}

impl TargetDescription {
    /// No hash algorithm and no custom field name repeats.
    pub open spec fn wf(&self) -> bool {
        !has_duplicate_key(self.hashes@) && !has_duplicate_key(self.custom@)
    }

    pub fn is_wf(&self) -> (r: bool)
        ensures
            r == self.wf(),
    {
        find_repeated_key(&self.hashes).is_none() && find_repeated_key(&self.custom).is_none()
    }

    pub fn new(length: u64, hashes: Vec<(String, String)>, custom: Vec<(String, serde_json::Value)>) -> (r: Self)
        ensures
            r.length == length,
            r.hashes == hashes,
            r.custom == custom,
    {
        TargetDescription { length, hashes, custom }
    }
}

impl MetadataDescription {
    /// No hash algorithm repeats.
    pub open spec fn wf(&self) -> bool {
        !has_duplicate_key(self.hashes@)
    }

    pub fn is_wf(&self) -> (r: bool)
        ensures
            r == self.wf(),
    {
        find_repeated_key(&self.hashes).is_none()
    }

    pub fn new(version: u32, length: Option<usize>, hashes: Vec<(String, String)>) -> (r: Self)
        ensures
            r.version == version,
            r.length == length,
            r.hashes == hashes,
    {
        MetadataDescription { version, length, hashes }
    }
}

} // verus!
