//! The code-generation half of the pipeline.

pub mod codegen;
