//! A folder comparison engine.
//!
//! A caller walks two trees as a `walk::Comparison` asks, hands it what each listed directory
//! holds, and gets back which relative paths are only on one side, which differ in content,
//! and how many are identical. The listings are sorted and compared in `engine`; `glob`
//! decides which names are ignored; `report` renders a result as text.

pub mod order;
pub mod glob;
pub mod entry;
pub mod engine;
pub mod laws;
pub mod walk;
pub mod report;
