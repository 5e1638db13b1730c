//! Exponential backoff: how long to wait before the next retry of an
//! operation that failed for a reason that may pass.
//!
//! Delays grow by a constant factor with every attempt, stay between a
//! configured minimum and maximum, and can be spread at random so that
//! retriers that failed together do not come back together. Nothing here
//! sleeps or decides whether to retry: the library only says how long to
//! wait.
//!
//! All arithmetic is integer arithmetic on nanoseconds. The delay of an
//! attempt is the minimum times the factor to the power of the attempt,
//! rounded down once: exactly so wherever the minimum times the factor's
//! numerator to that power fits in 128 bits, and elsewhere with 128 bits of
//! precision, which loses less than one part in two to the power of 62
//! whatever the attempt. Both are proved, as is every function against a
//! mathematical model of the retry schedule. One thing is taken on trust:
//! that a random draw lies in the range asked for.
//!
//! - [`delay`]: spans of time in nanoseconds;
//! - [`factor`]: growth factors as ratios of whole numbers, and their
//!   powers;
//! - [`growth`]: the growth curve and the clamp, as mathematics, with what is
//!   proved of them;
//! - [`magnitude`]: numbers with a mantissa of 128 bits, for powers that no
//!   whole number of 128 bits holds;
//! - [`wide`]: products of 256 bits;
//! - [`schedule`]: the model of a backoff and what is proved of sequences of
//!   calls;
//! - [`backoff`]: the backoff itself, for one owner;
//! - [`shared`]: a backoff whose counter is shared between threads.

pub mod backoff;
pub mod delay;
pub mod factor;
pub mod growth;
mod jitter;
pub mod magnitude;
pub mod schedule;
pub mod shared;
pub mod wide;
