//! The message log: an append-only ordered sequence of strings. The
//! core only appends; it never reads or truncates.

use vstd::prelude::*;

verus! {

pub struct GameLog {
    pub entries: Vec<String>,
}

impl GameLog {
    pub fn new() -> (log: GameLog)
        ensures
            log.entries@.len() == 0,
    {
        GameLog { entries: Vec::new() }
    }

    /// Append one message; everything already logged stays in place.
    pub fn add(&mut self, msg: String)
        ensures
            final(self).entries@ == old(self).entries@.push(msg),
    {
        self.entries.push(msg);
    }
}

} // verus!
