//! Verified core of the rikky_modoki AviUtl2 plugin: audio capture state,
//! PCM windows, the image store, progress state and script rewriting rules.
#![allow(unused_imports)]

pub mod audiobuffer;
pub mod contour;
pub mod encoding;
pub mod fill;
pub mod glass;
pub mod group;
pub mod image;
pub mod lines;
pub mod number;
pub mod paths;
pub mod lua_string;
pub mod progress;
pub mod replacement;
pub mod rewrite;
pub mod scan;
pub mod script;
pub mod sound;
pub mod text;
