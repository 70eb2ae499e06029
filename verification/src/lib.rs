//! Streaming extraction of the records of one very large JSON array.
//!
//! The stream is a JSON array with one object on each line: `[`, a line
//! feed, the objects separated by `,` and a line feed, and at the end a
//! line feed and `]`. It arrives in chunks of any size. The engine decodes
//! the chunks, finds the records, hands each to a transform and collects
//! what the transform gives, in the order of the records, without holding
//! more of the stream than the record that is not complete yet.
//!
//! * [`markers`]: the framing of the stream;
//! * [`text`]: text as UTF-8 bytes;
//! * [`reassembly`]: the buffer that puts text together from chunks;
//! * [`splitter`]: cutting buffered text into records and a tail;
//! * [`transform`]: what a transform gives, and the continuation policy;
//! * [`sink`]: the ordered output buffer;
//! * [`counters`], [`error`], [`config`]: what a run counts, why it fails,
//!   and what it is started with;
//! * [`model`]: the run as a state machine over mathematical values;
//! * [`run`]: the run controller that implements the state machine;
//! * [`runs`]: the state machine over whole sequences of chunks and results;
//! * [`process`]: a whole run over chunks in memory;
//! * [`laws`]: what holds of every run.
pub mod config;
pub mod counters;
pub mod error;
pub mod laws;
pub mod markers;
pub mod model;
pub mod process;
pub mod reassembly;
pub mod run;
pub mod runs;
pub mod sink;
pub mod splitter;
pub mod text;
pub mod transform;
