//! Batch exports of videos at another speed: which requests are accepted, which part of a video is
//! used, what the exports are named, how the converting program is called, how a file size is met,
//! and how the program is controlled from outside.
//!
//! The library decides and computes. It does no input or output: the caller runs programs, reads and
//! writes files and connections, and hands over what came of it. Double-precision numbers are held
//! by their bit patterns, and computed with in whole numbers.

pub mod agent;
pub mod arithmetic;
pub mod commands;
pub mod double;
pub mod http;
pub mod jobs;
pub mod json;
pub mod media;
pub mod megabytes;
pub mod naming;
pub mod notation;
pub mod options;
pub mod preview;
pub mod replies;
pub mod rounding;
pub mod runtime;
pub mod sizing;
pub mod text;
pub mod video;
pub mod window;
pub mod worker;
