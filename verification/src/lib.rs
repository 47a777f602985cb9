//! Wavefront OBJ scenes: loading them from text and writing them as text.
//!
//! [`ObjData::load`] reads a whole document and [`Loader`] reads one line by
//! line; [`ObjData::write`] writes a scene as a document. What each of them
//! does is stated over sequences of characters: `directive` says what a line
//! makes of a load, and `writer` says which lines stand for a scene.
//!
//! Coordinates are kept as the literals that spell them (see `number`); the
//! library holds no machine number.
//!
//! The laws: a load leaves a scene that can be written (`loaded`); loading
//! what was written gives the scene back, but for the groups that hold no
//! face and the order of the others (`roundtrip`, `reloaded`); and a few
//! more on single lines and on the lines of a document (`laws`).

pub mod directive;
pub mod index;
pub mod laws;
pub mod loaded;
pub mod loader;
pub mod number;
pub mod reloaded;
pub mod roundtrip;
pub mod scene;
pub mod text;
pub mod writer;

pub use crate::directive::{Directive, LoaderState};
pub use crate::loader::{parse, Loader};
pub use crate::number::Number;
pub use crate::scene::{FaceRef, Group, LoadingError, ObjData, Object, Triple, Vertex};
