mod strs;
pub mod cloud;
pub mod control;
pub mod debugger;
pub mod designation;
pub mod engine;
pub mod hooks;
pub mod logging;
pub mod matcher;
pub mod preference;
pub mod realtime;
pub mod replacer;
pub mod rules;
pub mod ruleset;
pub mod screen;
pub mod text;
pub mod translation;
pub mod translator;
pub mod types;
pub mod visual_block;
