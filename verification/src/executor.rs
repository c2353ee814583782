//! One handler per hardware thread.

use vstd::prelude::*;

verus! {

/// A handler that tries guesses.
pub trait Brute {
    /// return true when a match has been found to signal termination
    fn brute(&mut self, current_guess: &[u8]) -> bool;
}

/// The handlers of all workers.
pub struct Executor<T: Brute> {
    brutes: Vec<T>,
}

/// The number of logical processors that `num_cpus::get` reports for this
/// machine, which its documentation promises to be at least one.
#[verifier::external_body]
pub(crate) fn available_workers() -> (n: usize)
    ensures
        n >= 1,
{
    num_cpus::get()
}

impl<T: Brute> Executor<T> {
    /// The handlers, in the order of their workers.
    pub closed spec fn view(&self) -> Seq<T> {
        self.brutes@
    }

    /// Makes one handler per logical processor of this machine: handler `i`
    /// is what `initializer` gives for `i`.
    pub fn run<F>(pattern: &'static str, initializer: F) -> (executor: Self) where
        F: FnMut(usize) -> T,

        requires
            forall|i: usize| call_requires(initializer, (i,)),
        ensures
            executor@.len() >= 1,
            forall|i: int|
                0 <= i < executor@.len() ==> call_ensures(
                    initializer,
                    (i as usize,),
                    #[trigger] executor@[i],
                ),
    {
        Self::with_workers(available_workers(), initializer)
    }

    /// Makes `workers` handlers: handler `i` is what `initializer` gives for `i`.
    pub fn with_workers<F>(workers: usize, mut initializer: F) -> (executor: Self) where
        F: FnMut(usize) -> T,

        requires
            forall|i: usize| call_requires(initializer, (i,)),
        ensures
            executor@.len() == workers,
            forall|i: int|
                0 <= i < workers ==> call_ensures(
                    initializer,
                    (i as usize,),
                    #[trigger] executor@[i],
                ),
    {
        let ghost given = initializer;
        let mut brutes: Vec<T> = Vec::new();
        let mut i: usize = 0;
        while i < workers
            invariant
                i <= workers,
                initializer == given,
                brutes@.len() == i,
                forall|k: usize| call_requires(initializer, (k,)),
                forall|k: int|
                    0 <= k < i ==> call_ensures(initializer, (k as usize,), #[trigger] brutes@[k]),
            decreases workers - i,
        {
            brutes.push(initializer(i));
            i += 1;
        }
        Executor { brutes }
    }

    /// The number of handlers.
    pub fn len(&self) -> (n: usize)
        ensures
            n == self@.len(),
    {
        self.brutes.len()
    }

    /// The handlers, in the order of their workers.
    pub fn brutes(&self) -> (brutes: &Vec<T>)
        ensures
            brutes@ == self@,
    {
        &self.brutes
    }
}

} // verus!
