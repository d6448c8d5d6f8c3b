//! phext-lattice: the foundation layer for phext-fluent editing.
//!
//! A phext document is a byte stream in which nine delimiter bytes move a
//! nine-dimensional coordinate forward. This crate indexes such documents,
//! navigates their lattice of coordinates, edits scroll contents with undo,
//! and renders coordinates as speakable syllables.

pub mod coordinate;
pub mod coordinate_ext;
pub mod cursor;
pub mod editor;
pub mod index;
pub mod index_laws;
pub mod mmap;
pub mod modes;
pub mod navigator;
pub mod record_laws;
pub mod search;
pub mod search_laws;
pub mod serial_laws;
pub mod server;
pub mod session;
pub mod sentron;
pub mod stats;
pub mod text;
pub mod text_laws;
pub mod tts;
pub mod uml6d;
pub mod undo;
pub mod work_laws;

pub use coordinate::{Coordinate, XCoordinate, YCoordinate, ZCoordinate, default_coordinate};
pub use coordinate_ext::{CoordinateNav, Dimension};
pub use cursor::{Position, ScrollCursor, Selection};
pub use editor::{CursorStyle, EditContext, EditKey, EditKeyCode, EditResult, EditorMode};
pub use index::{LatticeIndex, ScrollSpan};
pub use mmap::MappedLattice;
pub use modes::VimMode;
pub use navigator::Navigator;
pub use search::{search_coordinates, search_lattice, SearchHit};
pub use sentron::{AxisGroup, Axon, Neuron, Sentron, SENTRON_CAPACITY};
pub use stats::{DimensionDensity, LatticeOverview, Neighborhood, ScrollStats};
pub use tts::{
    byte_to_syllable, dim_to_syllables, generate_pronunciation_doc, special_coords, to_ssml,
    CoordPronunciation,
};
pub use uml6d::{artifacts_in_phase, trace_artifact, ArtifactAddr, Phase, UmlContext};
pub use undo::{EditOp, UndoEngine, UndoRecord};
