//! On-demand JPEG resizing with per-stage timing diagnostics, and the
//! statistical benchmarking harness that exercises it.
//!
//! The service side fetches an original image from an object store (done by
//! the surrounding program), optionally resizes it, and answers with the
//! image, a server-timing header and an invocation ordinal. The harness
//! side reads those headers back and reduces many measurements into
//! cold-start classification and min/max/mean statistics. Durations are
//! held as whole microseconds, which carry a millisecond value with three
//! decimal places exactly.

pub mod decimal;
pub mod harness;
pub mod request;
pub mod resize;
pub mod timing;
