//! Inventory grid editor: a scrollable, selectable table widget state machine,
//! a fuzzy-searchable row projection over backing records, and the view-model
//! that keeps them consistent with deferred persistence.

pub mod console;
pub mod editor_app;
pub mod fuzzy;
pub mod projection;
pub mod sheet;
pub mod text;
pub mod types;
pub mod unicode;
pub mod utils;
pub mod view_model;
