//! Image acquisition core of a DICOM viewer, verified with Verus.
//!
//! - `launch`: command-line arguments and `perspecta://` URLs read into a
//!   launch request (with `pct` for percent-decoding).
//! - `dicomweb`, `json`, `multipart`: DICOMweb URLs, the tolerant metadata
//!   reader, and unwrapping of multipart instance downloads.
//! - `select`, `mammo`: resolving a series to one instance or a canonical
//!   mammography quartet, and placing images in the 2x2 grid.
//! - `orchestrate`: the decisions of single and grouped downloads.
//! - `meta_repair`, `orientation`, `frames`: File Meta group repair, view
//!   and laterality normalization, and the multi-frame store.
//! - `settings`, `history`: the visible-metadata settings file and the
//!   identity of a set of opened files.
//! - `text`: character-level helpers shared by the others.
pub mod text;
pub mod json;
pub mod dicomweb;
pub mod mammo;
pub mod select;
pub mod pct;
pub mod launch;
pub mod multipart;
pub mod meta_repair;
pub mod orientation;
pub mod frames;
pub mod settings;
pub mod orchestrate;
pub mod history;
