//! Cooperative cancellation.
//!
//! A controller holds a handle on the same flag the dispatcher polls once
//! per record. Requesting a stop is advisory: the dispatcher always
//! finishes an open instantiation before stopping, so an interrupted parse
//! leaves no half-built edge.

use std::sync::atomic::AtomicBool;
use std::sync::Arc;

use vstd::prelude::*;

use crate::parser::Z3Parser1;

verus! {

/// A controller that can ask a running parse to stop.
pub struct ParserContinueAgent {
    pub continue_parsing: Arc<AtomicBool>,
}

impl ParserContinueAgent {
    /// A controller sharing the given parser's cancellation flag.
    pub fn new(parser: &Z3Parser1) -> (r: ParserContinueAgent)
        ensures
            r.continue_parsing == parser.continue_parsing,
    {
        ParserContinueAgent { continue_parsing: parser.get_continue_handle() }
    }

    /// Requests the parse to stop. The dispatcher honors the request at the
    /// next record boundary with no instantiation open.
    pub fn stop_parsing(&mut self) {
        crate::parser::flag_store(&self.continue_parsing, false);
    }
}

} // verus!
