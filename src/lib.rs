//! Groups the members of a tag-only enum into named, ordered sequences
//! according to per-member `enumerate` annotations.
//!
//! The work happens in two stages: [`annotation`] turns the raw annotation
//! tokens of one member into an [`annotation::Annotation`], and [`resolve`]
//! walks the annotated members once, threading the active group through the
//! pass. [`derive`] puts the two together on a whole type description and
//! names the accessors that a renderer emits.
pub mod annotation;
pub mod resolve;
pub mod derive;
