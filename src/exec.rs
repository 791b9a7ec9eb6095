//! Commands that bindings run, and the schedule on which finished children
//! are reaped.

use vstd::prelude::*;

use crate::text::{split, split_spec, strings_view};

verus! {

/// A program and its arguments, as a binding names them.
pub struct CommandLine {
    pub program: String,
    pub args: Vec<String>,
}

impl CommandLine {
    /// Reads `cmd`: words separated by single spaces, the first one naming the
    /// program; two spaces in a row give an empty argument.
    pub fn parse(cmd: &str) -> (r: CommandLine)
        ensures
            seq![r.program@] + strings_view(r.args@) == split_spec(cmd@, ' '),
    {
        let mut words = split(cmd, ' ');
        let ghost ws = strings_view(words@);
        proof {
            lemma_split_spec_nonempty(cmd@, ' ');
        }
        let program = words.remove(0);
        assert(seq![program@] + strings_view(words@) =~= ws);
        CommandLine { program, args: words }
    }
}

proof fn lemma_split_spec_nonempty(s: Seq<char>, sep: char)
    ensures
        split_spec(s, sep).len() >= 1,
    decreases s.len(),
{
    if s.len() > 0 {
        lemma_split_spec_nonempty(s.drop_last(), sep);
    }
}

/// Number of dispatched keyboard events between two sweeps for finished children.
pub const SWEEP_PERIOD: u32 = 10;

/// Counts keyboard events and says when finished children are to be reaped.
pub struct Sweep {
    count: u32,
}

impl Sweep {
    /// Events counted since the last sweep.
    pub closed spec fn pending(&self) -> nat {
        self.count as nat
    }

    pub closed spec fn wf(&self) -> bool {
        self.count < SWEEP_PERIOD
    }

    /// A count that starts at zero.
    pub fn new() -> (r: Sweep)
        ensures
            r.wf(),
            r.pending() == 0,
    {
        Sweep { count: 0 }
    }

    /// Counts one event; true where a sweep is due, which restarts the count.
    pub fn tick(&mut self) -> (collect: bool)
        requires
            old(self).wf(),
        ensures
            final(self).wf(),
            collect == (old(self).pending() + 1 == SWEEP_PERIOD),
            final(self).pending() == if collect {
                0
            } else {
                old(self).pending() + 1
            },
    {
        self.count = self.count + 1;
        if self.count >= SWEEP_PERIOD {
            self.count = 0;
            true
        } else {
            false
        }
    }
}

} // verus!
