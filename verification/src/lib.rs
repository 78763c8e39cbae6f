//! Compact databases of chess puzzles: packed positions, moves and themes, three
//! file formats with their builders, readers and queries, and export as PGN and
//! comma-separated lines.

pub mod appendix;
pub mod asking;
pub mod block_builder;
pub mod block_db;
pub mod block_file;
pub mod board;
pub mod builder;
pub mod building;
pub mod chance;
pub mod chunks;
pub mod coding;
pub mod columnar_builder;
pub mod columnar_db;
pub mod columns;
pub mod db;
pub mod dict;
pub mod exporter;
pub mod fen;
pub mod frame;
pub mod id;
pub mod ingest;
pub mod keeping;
pub mod moves;
pub mod notation;
pub mod playing;
pub mod position;
pub mod puzzle;
pub mod query;
pub mod record;
pub mod render;
pub mod section;
pub mod setting;
pub mod showing;
pub mod sql;
pub mod text;
pub mod theme;
pub mod wire;
pub mod wording;

pub use crate::block_builder::{BlockBuilderStats, BlockDbBuilder};
pub use crate::block_db::{BlockCompressedDb, LPDB_VERSION_V3};
pub use crate::board::CompactBoard;
pub use crate::builder::{BuilderStats, DbBuilder};
pub use crate::columnar_builder::{ColumnarBuilderOptions, ColumnarBuilderStats, ColumnarDbBuilder};
pub use crate::columnar_db::{ColumnarDb, LPDB_VERSION_V4};
pub use crate::db::{PuzzleDatabase, LPDB_VERSION};
pub use crate::exporter::Exporter;
pub use crate::fen::PackedFen;
pub use crate::moves::PackedMove;
pub use crate::puzzle::{Puzzle, QueryCriteria};
pub use crate::record::PuzzleRecord;
pub use crate::theme::ThemeMask;
