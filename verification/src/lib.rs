//! Injects a `branchHints` custom section into a WebAssembly module: per-branch
//! "likely taken" directions, keyed by absolute function index and by the byte
//! offset of each hinted instruction inside its function body, spliced into the
//! byte stream immediately before the code section.

pub mod codec;
pub mod decode;
pub mod hints;
pub mod laws;
pub mod scan;
pub mod section;
pub mod splice;
