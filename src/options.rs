//! Options that hold for every command.

use vstd::prelude::*;

verus! {

/// Options shared by all commands.
pub struct GlobalOptions {
    /// Log at debug level rather than info level.
    pub verbose: bool,
}

impl GlobalOptions {
    /// The log filter that these options ask for.
    pub fn log_level(&self) -> (r: &'static str)
        ensures
            r@ == if self.verbose {
                "debug"@
            } else {
                "info"@
            },
    {
        if self.verbose {
            "debug"
        } else {
            "info"
        }
    }
}

} // verus!
