//! Core model of a card-proxy print sheet builder: a catalog of card
//! printings merged from several sources, a print file of filled card
//! slots with automatic variant balancing, and an exact page-layout
//! engine for the 3x3 print grid.

mod catalog;
mod geometry;
mod ids;
mod import;
mod print_file;
mod strutil;

pub use catalog::AlternateFaceMetadata;
pub use catalog::CardMetadata;
pub use catalog::CollectionName;
pub use catalog::InsertMetadata;
pub use catalog::Library;
pub use catalog::LibraryEntry;
pub use catalog::LocalImageOverride;
pub use catalog::MultiLibrary;
pub use catalog::NrdbRemapEntry;
pub use catalog::PrintingMetadata;

pub use import::import_deck_line;
pub use import::import_deck_text;
pub use import::parse_deck_line;

pub use print_file::lemma_remove_restores_counters;
pub use print_file::lemma_variant_round_robin;
pub use print_file::FilledCardSlot;
pub use print_file::PrintFile;

pub use ids::CardFacePrintingId;
pub use ids::CardId;
pub use ids::CardImage;
pub use ids::InsertId;
pub use ids::Title;

pub use geometry::lemma_grid_centered;

pub use geometry::BleedMode;
pub use geometry::CutIndicator;
pub use geometry::MarkRect;
pub use geometry::PrintConfig;
pub use geometry::PrintSize;
pub use geometry::SlotPlacement;
pub use geometry::UNITS_PER_MM;
