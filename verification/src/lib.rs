//! Finding duplicated music files, by their tags or by how they sound.

pub mod about_buttons;
pub mod cache;
pub mod common;
pub mod fingerprint_matching;
pub mod fingerprinting;
pub mod grouping;
pub mod ieee;
pub mod music_entry;
pub mod name_laws;
pub mod notebook;
pub mod order_laws;
pub mod params;
pub mod path_laws;
pub mod preset;
pub mod progress;
pub mod reading_laws;
pub mod refinement_laws;
pub mod report;
pub mod report_laws;
pub mod same_music;
pub mod search_laws;
pub mod search_stages;
pub mod simplified_name;
pub mod sorted_map;
pub mod sound_laws;
pub mod sound_order_laws;
pub mod sound_search;
pub mod sound_search_laws;
pub mod splitting;
pub mod state_laws;
pub mod tag_laws;
pub mod tag_search_laws;
pub mod tags;
pub mod taskbar_progress_dummy;
pub mod text;
pub mod text_laws;
pub mod title_laws;
