//! Audify: turning articles and papers into speakable text, chunked for
//! synthesis. The text-processing core of the pipeline, with its contracts.

pub mod text;
pub mod chunk;
pub mod error;
pub mod types;
pub mod pdf;
pub mod normalize;
pub mod html;
pub mod config;
pub mod pipeline;
pub mod job;
pub mod feed;
pub mod synth;
pub mod storage;
pub mod assemble;
