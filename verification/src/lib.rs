//! A generator of plausible names: it learns from a corpus of names cut into
//! syllables which sounds follow which, and stitches syllables of different
//! names together along transitions that the corpus has shown.

pub mod corpus;
pub mod draw;
pub mod generator;
pub mod name;
pub mod phonetic;
pub mod sorted_vec;
pub mod walk;

pub use generator::{NameGenerator, NameGeneratorBuilder, SyllableInfo};
pub use name::{Name, NameError};
