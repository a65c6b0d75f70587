//! Release packaging for plugin projects: version bumping, manifest
//! patching, release file selection and archive assembly.
pub mod version;
pub mod patch;
pub mod manifest;
pub mod collect;
pub mod archive;
pub mod release;
