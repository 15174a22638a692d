//! The one-line diagnostic side channel.
//!
//! A repository that cannot be processed is dropped from results with a
//! single line on the error stream; nothing is ever read back from it.

use vstd::prelude::*;
use std::io::Write;

verus! {

/// Writes one `context: message` diagnostic line to the error stream.
///
/// Relies on `std::io::Write::write_fmt` via the `writeln` macro; the
/// write's own result is discarded, as a diagnostic that cannot be
/// printed has nowhere left to go.
#[verifier::external_body]
pub fn report_failure(context: &str, message: &str) {
    let mut err = std::io::stderr();
    let _ = writeln!(err, "\u{274c} {}: {}", context, message);
}

} // verus!
