//! Configuration parsing and window event handling for a small windowed
//! application. The byte-level parser, the first-run recovery decision and
//! the event-loop state machine are verified here; the file system, the
//! windowing library and the GPU calls stay with the program around it.
pub mod config;
pub mod runtime;
pub mod store;
pub mod text;
