//! An in-memory, read-optimized dataset over flat tabular exports of
//! speedcubing competition data: competitors, per-event results, and
//! per-event rankings.
//!
//! The dataset is built once from the five tab-separated input files and is
//! immutable afterwards; every query is a bounded in-memory lookup.

pub mod assoc;
pub mod builder;
pub mod parse;
pub mod records;
pub mod sort;
pub mod strings;
pub mod types;
pub mod wca;

pub use builder::build_from_files;
pub use builder::build_ok;
pub use builder::dataset_matches;
pub use records::EventRecords;
pub use types::gender_to_str;
pub use types::CompResult;
pub use types::Competitor;
pub use types::Event;
pub use types::Gender;
pub use types::IngestionError;
pub use types::Ranking;
pub use types::Record;
pub use types::RecordWithCompetitor;
pub use types::ResultType;
pub use types::SourceFile;
pub use wca::WCA;
