//! Turing-machine tinkering toolkit: the tape machine and its commands,
//! alphabets, transition graphs of submachines and their validation,
//! projects and their saved form, and the editor's decisions on selection,
//! tools and text fields.

pub mod advanced;
pub mod alphabet;
pub mod bundle;
pub mod descriptions;
pub mod glyphs;
pub mod labels;
pub mod node_edit;
pub mod project;
pub mod router;
pub mod session;
pub mod slots;
pub mod tape;
pub mod text_input;
pub mod tm;
pub mod tmcore;
pub mod toolbars;
pub mod tools;
