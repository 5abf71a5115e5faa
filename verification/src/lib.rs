//! Reading and writing BioWare Aurora ERF archives (HAK, ERF, MOD and SAV
//! files), together with the small wire formats that the archive explorer
//! uses around them.

pub mod le;
pub mod text;
pub mod resource_types;
pub mod archive;
pub mod order;
pub mod erf;
pub mod index_region;
pub mod build_date;
pub mod erf_write;
pub mod forward;
pub mod drag;
pub mod xdnd;
pub mod save_file;
pub mod round_trip;
