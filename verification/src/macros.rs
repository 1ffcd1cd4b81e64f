//! The decisions of the `mqtt_topic` attribute macro, taken on plain values:
//! naming, reading the macro arguments, checking the annotated struct
//! against its topic pattern, and planning the generated items. Producing
//! tokens from these plans is left to the macro crate itself.
pub mod analysis;
pub mod args;
pub mod codegen;
pub mod naming;
