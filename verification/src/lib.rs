//! An on-CPU profiler's sampling and symbolization pipeline.
//!
//! A kernel-resident sampler counts, per processor, how often each captured
//! call stack was seen. After the observation window has closed, the counts
//! are merged across processors, every stack is turned into one line of text
//! (frames from the root to the leaf, joined by `;`), lines with the same text
//! are merged by adding their counts, and the result is rendered in the
//! collapsed-stack format that flame-graph tools read.
//!
//! Everything in this crate works on plain values. Loading the sampler,
//! reading the kernel's tables, asking a debug-information resolver about an
//! address and writing the report to a file are left to the caller.
//!
//! - [`sampler`]: the capture mode of a context, and the aggregation map that
//!   counts the samples of each stack on each processor.
//! - [`counts`]: the counts of the processors for one stack, added up.
//! - [`ksyms`]: the kernel symbol table and the search for the nearest symbol
//!   at or below an address.
//! - [`symbol`]: the text of a frame and of a stack, and the report built from
//!   the drained stacks.
//! - [`report`]: counts merged by the text of their stack, and the report
//!   file.
//! - [`text`]: integers in decimal and hexadecimal.
//! - [`util`]: small helpers around a run.
//! - [`laws`]: what holds across the stages.

pub mod counts;
pub mod ksyms;
pub mod laws;
pub mod report;
pub mod sampler;
pub mod symbol;
pub mod text;
pub mod util;
