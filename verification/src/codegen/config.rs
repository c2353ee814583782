//! The invocation surface: a pattern, the name of the handler type, and the
//! two switches that pick the termination mode and the threading.

use crate::codegen::coverage::plan_wf;
use crate::codegen::emit::{emit, program_text};
use crate::codegen::grammar::{tokenized, ParseErr};
use crate::codegen::layout::{fits, planned};
use crate::codegen::parser::{Final, Partition};
use crate::executor::available_workers;
use vstd::prelude::*;
use vstd::string::StringSliceAdditionalSpecFns;

verus! {

/// What one invocation asks for, with the plan of its pattern.
#[derive(Clone, PartialEq, Debug)]
pub struct Config {
    /// The name of the handler type.
    pub handler: String,
    /// The plan of the pattern.
    pub result: Final,
    /// Whether a match ends the process.
    pub abort: bool,
    /// Whether each task gets a thread of its own.
    pub threaded: bool,
}

/// The partitioning policy of an invocation: threaded workers each get every
/// run, and without threads there is one task.
pub open spec fn partition_of(threaded: bool) -> Partition {
    if threaded {
        Partition::Weak
    } else {
        Partition::Single
    }
}

impl Config {
    /// The partitioning policy of an invocation.
    pub fn partition(threaded: bool) -> (part: Partition)
        ensures
            part == partition_of(threaded),
    {
        if !threaded {
            Partition::Single
        } else {
            Partition::Weak
        }
    }

    /// Plans `pattern` for `num_threads` workers where it lexes and its plan
    /// fits this machine. A pattern that lexes and does not fit gives `None`.
    pub fn new(
        pattern: &str,
        handler: String,
        abort: bool,
        threaded: bool,
        num_threads: usize,
    ) -> (r: Option<Result<Config, ParseErr>>)
        ensures
            match tokenized(pattern.spec_bytes()) {
                Err(expected) => r matches Some(Err(e)) && e == expected,
                Ok(lexed) => if fits(lexed.tokens) {
                    r matches Some(Ok(config)) && config.handler@ == handler@ && config.abort
                        == abort && config.threaded == threaded && config.result@ == planned(
                        lexed.classes,
                        lexed.tokens,
                        num_threads as nat,
                        partition_of(threaded),
                    ) && plan_wf(config.result@)
                } else {
                    r is None
                },
            },
    {
        let part = Self::partition(threaded);
        match Final::try_new(pattern, num_threads, part) {
            None => None,
            Some(Err(e)) => Some(Err(e)),
            Some(Ok(result)) => Some(Ok(Config { handler, result, abort, threaded })),
        }
    }

    /// Plans `pattern` for as many workers as this machine has logical
    /// processors.
    pub fn for_host(pattern: &str, handler: String, abort: bool, threaded: bool) -> (r: Option<
        Result<Config, ParseErr>,
    >)
        ensures
            match tokenized(pattern.spec_bytes()) {
                Err(expected) => r matches Some(Err(e)) && e == expected,
                Ok(lexed) => if fits(lexed.tokens) {
                    r matches Some(Ok(config)) && config.handler@ == handler@ && config.abort
                        == abort && config.threaded == threaded && plan_wf(config.result@)
                        && exists|workers: nat|
                        workers >= 1 && config.result@ == #[trigger] planned(
                            lexed.classes,
                            lexed.tokens,
                            workers,
                            partition_of(threaded),
                        )
                } else {
                    r is None
                },
            },
    {
        let workers = available_workers();
        let r = Self::new(pattern, handler, abort, threaded, workers);
        proof {
            if let Ok(lexed) = tokenized(pattern.spec_bytes()) {
                if fits(lexed.tokens) {
                    assert(r->0->Ok_0.result@ == planned(
                        lexed.classes,
                        lexed.tokens,
                        workers as nat,
                        partition_of(threaded),
                    ));
                }
            }
        }
        r
    }

    /// The text of the program that this invocation asks for.
    pub fn emit(&self) -> (text: String)
        ensures
            text@ == program_text(self.result@, self.handler@, self.abort, self.threaded),
    {
        emit(&self.result, self.handler.as_str(), self.abort, self.threaded)
    }
}

} // verus!
