//! Verified core logic of the KhmerIME input method: text editing helpers,
//! spelling-review state, persistence formats and platform key handling.

pub mod text;
pub mod history;
pub mod spellcheck;
pub mod flick;
pub mod macos;
pub mod session;
pub mod index;
pub mod macos_surface;
pub mod ios;
pub mod tsf_keys;
pub mod tsf_render;
pub mod tsf_com;
pub mod tsf_driver;
pub mod tsf_surface;
pub mod tsf_candidates;
pub mod bridge;
pub mod storage;
pub mod startup;
pub mod bootstrap;
pub mod checker;
pub mod detector;
pub mod lookup_cli;
pub mod android;
pub mod lexicon_source;
pub mod khpos;
pub mod user_dictionary;
pub mod editor_keys;
pub mod saved_words;
