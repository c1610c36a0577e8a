//! Lindenmayer-system string rewriting and branch decomposition.
//!
//! `progress` applies one generation of context-free rewrite rules to a
//! symbol string; `separate_stack_strings` splits a string with nested
//! `[` / `]` branch markers into the linear strokes it describes. Around
//! them: repeated generations, fixed-width code rows for the strokes, and a
//! frames-per-second counter for the viewer.
mod chars;
pub mod char_map;
pub mod encode;
pub mod fps;
pub mod laws;
pub mod lindenmayer;

pub use char_map::{CharMap, Rules};
pub use encode::{encode_stroke, encode_strokes, EncodeError};
pub use fps::FpsComponent;
pub use lindenmayer::{
    expand_generations, generation_strokes, progress, separate_stack_strings, LindenmayerError,
};
