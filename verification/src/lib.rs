//! First-species (note-against-note) counterpoint.
//!
//! Given a cantus firmus, the library enumerates every counterpoint line that
//! the classical voice-leading rules admit, scores the candidates on melodic
//! smoothness and harmonic variety, and picks the best one deterministically.

pub mod pitch;
pub mod search;
pub mod select;
