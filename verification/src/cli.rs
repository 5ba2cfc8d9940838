//! Command-line options for the viewer.

use vstd::prelude::*;

verus! {

/// Options selecting what the viewer shows. The surrounding binary parses the
/// command line into this shape and passes the identifier through unchanged
/// to the feed subscription.
pub struct Args {
    /// The instrument identifier to subscribe to (for example "ETH-USD").
    pub identifier: String,
}

} // verus!
