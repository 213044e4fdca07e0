//! Persistence and restoration of the runtime configuration of an audio/MIDI
//! plugin instance: the set of port values and auxiliary properties that fully
//! describe a plugin's configuration at a point in time.
//!
//! A [`state::State`] is a snapshot of one instance's configuration. It is
//! captured from a live instance, serialized to a text document, loaded back
//! from such a document, and restored into a (possibly different) instance
//! through a caller-supplied accessor. Every stored value is tagged with an
//! integer type identifier issued by a [`urid::UridMap`].

pub mod codec;
pub mod hex;
pub mod instance;
pub mod scale_point;
pub mod state;
pub mod urid;
