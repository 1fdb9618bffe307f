//! The metadata subcommands of the command line, as plain values.

use vstd::prelude::*;

verus! {

/// What the `metadata` subcommand does.
#[derive(Debug, Clone, PartialEq, Eq)]
pub enum MetadataAction {
    /// List available metadata topics (CameraInfo, TF)
    List { input: String },
    /// Export CameraInfo to JSON
    CameraInfo {
        input: String,
        topic: String,
        output: Option<String>,
        first_only: bool,
        pretty: bool,
    },
    /// Export TF transforms to JSON
    Tf {
        input: String,
        topic: String,
        output: Option<String>,
        parent_frame: Option<String>,
        child_frame: Option<String>,
        pretty: bool,
    },
}

} // verus!
