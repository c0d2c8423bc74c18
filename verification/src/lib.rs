//! Pytest fixtures for editors: where they are defined, which of them a file sees, and how their
//! parameters are annotated.
//!
//! The library reads no files: what it knows of them is a [`workspace::Workspace`].
pub mod annotation;
pub mod applied;
pub mod bytes;
pub mod completion;
pub mod diagnostics;
pub mod edits;
pub mod fixture;
pub mod imports;
pub mod index;
pub mod mending;
pub mod navigation;
pub mod parameters;
pub mod path;
pub mod position;
pub mod protocol;
pub mod reexports;
pub mod requirements;
pub mod server;
pub mod syntax;
pub mod text;
pub mod uri;
pub mod visibility;
pub mod wire;
pub mod workspace;

pub use annotation::{FixtureAnnotation, ImportRequirement};
pub use fixture::{fixtures_in_text, Fixture};
pub use index::FixtureIndex;
pub use protocol::{AnnotationDiagnosticKind, DiagnosticConfig, FixtureAnnotationDiagnostic};
