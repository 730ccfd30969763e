pub mod bits;
pub mod columns;
pub mod flags;
pub mod rows;
pub mod visibility;

pub use columns::{InstructionColumns, KonataDependency, KonataStage};
pub use flags::{FlushState, KonataQualityCounters, RowFlags, StageFlags};
pub use rows::{KonataRowSet, KonataSearchHits};
pub use visibility::VisibilityIndex;
pub mod range_index;
pub use range_index::BlockRangeIndex;
pub mod index;
pub mod csr;
pub mod thread_index;
pub mod duplicates;
pub mod model;
pub mod projection;
pub mod stage_assign;
pub mod construct;
pub mod sorting;
pub mod texts;
pub mod trace;
pub mod records;
pub mod relations;
pub mod names;
pub mod state;
pub mod telemetry;
pub mod lists;
pub mod walk;
pub mod layout;
pub mod labels;
pub mod pipeline;
pub mod progress;
pub mod detail;
pub mod pages;
pub mod annotations;
pub mod controller;
pub mod encoding;
