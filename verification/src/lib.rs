//! Zone image tooling: package manifest and FMRI parsing, reconciliation of
//! packaged metadata against an on-disk proto area, archive planning and
//! unpacking decisions, and the batching model of the concurrent copy engine.

pub mod archive;
pub mod contents;
pub mod copyq;
pub mod defaults;
pub mod fmri;
pub mod ips;
pub mod metadata;
pub mod text;
pub mod tree;
pub mod unix;
pub mod unpack;
