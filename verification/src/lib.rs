//! Verified core of a scene-based video editor.

pub mod adjust;
pub mod answers;
pub mod api;
pub mod bindings;
pub mod cache;
pub mod captions;
pub mod catalog;
pub mod cliplist;
pub mod color;
pub mod compile;
pub mod coords;
pub mod counts;
pub mod curves;
pub mod cycles;
pub mod desilence;
pub mod docfile;
pub mod document;
pub mod drag;
pub mod edit;
pub mod effects;
pub mod error;
pub mod export;
pub mod faults;
pub mod fixed;
pub mod format;
pub mod history;
pub mod ids;
pub mod inspector;
pub mod integrity;
pub mod json;
pub mod karaoke;
pub mod keys;
pub mod laws;
pub mod medialib;
pub mod messages;
pub mod nesting;
pub mod numbers;
pub mod pieces;
pub mod plan;
pub mod player;
pub mod prefs;
pub mod previews;
pub mod ramp;
pub mod raster;
pub mod render;
pub mod resolve;
pub mod sceneform;
pub mod shapes;
pub mod silence;
pub mod skills;
pub mod snap;
pub mod split;
pub mod spots;
pub mod strip;
pub mod substitute;
pub mod subtitles;
pub mod templates;
pub mod text;
pub mod textmap;
pub mod timeline;
pub mod tree;
pub mod validate;
pub mod views;
pub mod waveform;
pub mod whisper;
pub mod words;
