//! Profiling guide: systems and batch operations are measured with
//! `tracing` spans when the `profiling` feature is enabled; the functions of
//! `profiling_examples` name the patterns that the guide describes.

pub mod profiling_examples;
