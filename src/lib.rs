//! Incremental content-update packaging: checksum indexes of an asset
//! directory and their text form, the diff between two snapshots, release
//! tags and patch versions, the member lists of incremental and full
//! packages, the manifest that describes them, and the per-platform
//! workflow that ties these together.
pub mod index;
pub mod diff;
pub mod text;
pub mod codec;
pub mod numeric;
pub mod release;
pub mod manifest;
pub mod checksum;
pub mod package;
pub mod paths;
pub mod workflow;
