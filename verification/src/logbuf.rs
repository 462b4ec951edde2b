//! A bounded in-memory buffer of diagnostic lines, drained by observers.

use vstd::prelude::*;

verus! {

/// Keeps at most a bounded number of recent lines; old lines give way.
pub struct DebugLogBuffer {
    pub logs: Vec<String>,
}

/// Above this many stored lines, a push first discards the oldest lines.
pub const LOG_HIGH_WATER: usize = 500;

/// After discarding, this many of the newest lines are kept.
pub const LOG_KEEP: usize = 250;

impl DebugLogBuffer {
    pub fn new() -> (r: DebugLogBuffer)
        ensures
            r.logs@.len() == 0,
    {
        DebugLogBuffer { logs: Vec::new() }
    }

    /// Append a line; when the buffer has grown past the high-water mark,
    /// only the newest lines are kept before appending.
    pub fn push(&mut self, msg: String)
        ensures
            final(self).logs@ == if old(self).logs@.len() > LOG_HIGH_WATER {
                old(self).logs@.skip(old(self).logs@.len() - LOG_KEEP).push(msg)
            } else {
                old(self).logs@.push(msg)
            },
    {
        if self.logs.len() > LOG_HIGH_WATER {
            let drain_to = self.logs.len() - LOG_KEEP;
            let mut i: usize = 0;
            while i < drain_to
                invariant
                    i <= drain_to,
                    drain_to == old(self).logs@.len() - LOG_KEEP,
                    old(self).logs@.len() > LOG_HIGH_WATER,
                    self.logs@ == old(self).logs@.skip(i as int),
                decreases drain_to - i,
            {
                let ghost pre = self.logs@;
                let _ = self.logs.remove(0);
                proof {
                    assert(pre.remove(0) =~= old(self).logs@.skip(i as int + 1));
                }
                i = i + 1;
            }
        }
        self.logs.push(msg);
    }

    /// Hand out every stored line and leave the buffer empty.
    pub fn drain(&mut self) -> (r: Vec<String>)
        ensures
            r@ == old(self).logs@,
            final(self).logs@.len() == 0,
    {
        let mut out: Vec<String> = Vec::new();
        core::mem::swap(&mut out, &mut self.logs);
        out
    }
}

} // verus!
