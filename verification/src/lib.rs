//! Topology, repair bookkeeping, diagnostics and file-format logic for
//! preparing triangle meshes for Creality K1 printers.
//!
//! - [`topology`]: edge incidence, boundary loops, face-connected components
//! - [`boundary`]: the boundary loops of a boundary made of simple cycles
//! - [`repair`]: the index-level steps of the repair pipeline
//! - [`diagnostics`]: check ids, findings, severities and exit codes
//! - [`step`], [`step_mesh`]: faceted STEP statements and triangle assembly
//! - [`format`]: mesh formats detected from file names
//! - [`fix_flow`]: the order of the fix pipeline
//! - [`profiles`]: selection of the embedded printer profiles
//! - [`ports`], [`mem_fs`]: the filesystem port and an in-memory filesystem
//! - [`tables`]: hash tables used by the algorithms
//! - [`text`], [`error`]: decimal rendering and the library's errors
pub mod tables;
pub mod topology;
pub mod boundary;
pub mod repair;
pub mod text;
pub mod diagnostics;
pub mod format;
pub mod error;
pub mod ports;
pub mod mem_fs;
pub mod step;
pub mod step_mesh;
pub mod fix_flow;
pub mod profiles;
