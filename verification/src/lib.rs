//! Scramble generation for twisty-puzzle simulators.
//!
//! A puzzle is described by a short definition text: its layer count and
//! dimension, how many random draws to make, the twists that open and close
//! every scramble, and the pool of generators to draw from.
//! `Definition::parse` reads such a text; `generate` draws a scramble from
//! the definition and lays it out as a puzzle log.
//!
//! The modules, from the ground up:
//! - `text`: what white space, comments, lines and tokens are;
//! - `number`: unsigned decimal numbers, read and written;
//! - `scan`: the scanners that find those things in a character slice;
//! - `definition`: the definition, its parts, and the parse errors;
//! - `grammar`: the grammar of a definition text and the parser for it;
//! - `writing`: a definition written out, and that it is read back as it was;
//! - `wrap`: words laid out in lines of limited width;
//! - `scramble`: the draws, the stream of twists they give, and the log.
pub mod definition;
pub mod grammar;
pub mod number;
pub mod scan;
pub mod scramble;
pub mod text;
pub mod wrap;
pub mod writing;

pub use definition::{Definition, Field, Generator, ParseError, Twist};
pub use scramble::{generate, render, sample_stream};
pub use wrap::{wrap_lines, wrap_words, WRAP_WIDTH};
