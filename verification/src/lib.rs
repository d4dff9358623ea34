//! Locating the main M2TS stream of a Blu-ray disc image and reading it
//! through the byte extents it occupies inside the image.

pub mod extents;
pub mod meta;
pub mod read_at;
pub mod scan;
pub mod udf;

pub use extents::{block_count, ExtentScan, ExtentStep, IsoExtent, SECTOR_SIZE};
pub use meta::{meta_from_scan, read_from_m2ts_extents, IsoExtentJson, IsoMeta};
pub use read_at::ReadAt;
pub use scan::{find_m2ts_files, select_main_m2ts, M2tsFile, M2tsScan, ScanAction, ScanEvent};
pub use udf::{UdfDir, UdfFile, Udfread};
