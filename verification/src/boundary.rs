//! The pinned upstream Meilisearch release that a WebAssembly build of it
//! starts from, and what is expected to block such a build.

use vstd::prelude::*;

verus! {

/// The upstream release tag.
pub const UPSTREAM_MEILISEARCH_TAG: &'static str = "v1.43.0";

/// The container image of that release.
pub const OCI_IMAGE: &'static str = "getmeili/meilisearch:v1.43.0";

/// The upstream version, its image, and the parts expected to block a WebAssembly build.
#[derive(Debug, Clone, PartialEq, Eq)]
pub struct PortingBoundary {
    pub upstream_tag: &'static str,
    pub oci_image: &'static str,
    pub expected_blockers: &'static [&'static str],
}

impl PortingBoundary {
    /// The boundary as it stands: the pinned release and its five expected blockers.
    pub fn current() -> (r: Self)
        ensures
            r.upstream_tag == UPSTREAM_MEILISEARCH_TAG,
            r.oci_image == OCI_IMAGE,
            r.expected_blockers@.len() == 5,
            r.expected_blockers@[0]@ == "LMDB/heed memory-mapped storage"@,
            r.expected_blockers@[1]@ == "native HTTP server runtime"@,
            r.expected_blockers@[2]@ == "background task scheduler"@,
            r.expected_blockers@[3]@ == "filesystem-oriented snapshots/dumps"@,
            r.expected_blockers@[4]@ == "telemetry and host process configuration"@,
    {
        let blockers: &'static [&'static str] = &[
            "LMDB/heed memory-mapped storage",
            "native HTTP server runtime",
            "background task scheduler",
            "filesystem-oriented snapshots/dumps",
            "telemetry and host process configuration",
        ];
        Self { upstream_tag: UPSTREAM_MEILISEARCH_TAG, oci_image: OCI_IMAGE, expected_blockers: blockers }
    }
}

} // verus!
