//! Configuration for the thread-pool backend.

use crate::pool::{
    builder_new, builder_num_threads, builder_stack_size, pool_builder_stack,
    pool_builder_threads, PoolBuilder,
};
use vstd::prelude::*;

verus! {

/// How the thread-pool backend sizes its worker pool. A value that is absent
/// leaves the choice to the backend.
#[derive(Debug, Clone, Copy)]
pub struct ParallelExecutorOptions {
    /// The pool starts at most this many workers.
    num_threads: Option<usize>,
    /// The stack size of each worker, in bytes.
    stack_size: Option<usize>,
}

impl ParallelExecutorOptions {
    /// The thread count that was asked for.
    pub closed spec fn threads(&self) -> Option<usize> {
        self.num_threads
    }

    /// The stack size that was asked for.
    pub closed spec fn stack(&self) -> Option<usize> {
        self.stack_size
    }

    /// Options that leave every choice to the backend.
    pub fn new() -> (r: Self)
        ensures
            r.threads() is None,
            r.stack() is None,
    {
        ParallelExecutorOptions { num_threads: None, stack_size: None }
    }

    /// These options with the thread count replaced.
    pub fn with_num_threads(self, num_threads: Option<usize>) -> (r: Self)
        ensures
            r.threads() == num_threads,
            r.stack() == self.stack(),
    {
        ParallelExecutorOptions { num_threads, stack_size: self.stack_size }
    }

    /// These options with the stack size replaced.
    pub fn with_stack_size(self, stack_size: Option<usize>) -> (r: Self)
        ensures
            r.threads() == self.threads(),
            r.stack() == stack_size,
    {
        ParallelExecutorOptions { num_threads: self.num_threads, stack_size }
    }

    /// The thread count that was asked for.
    pub fn num_threads(&self) -> (r: Option<usize>)
        ensures
            r == self.threads(),
    {
        self.num_threads
    }

    /// The stack size that was asked for.
    pub fn stack_size(&self) -> (r: Option<usize>)
        ensures
            r == self.stack(),
    {
        self.stack_size
    }

    /// A pool builder that carries these options: only what was asked for
    /// is set on it.
    pub(crate) fn create_builder(&self) -> (b: PoolBuilder)
        ensures
            pool_builder_threads(b) == (match self.threads() {
                Some(n) => n,
                None => 0,
            }),
            pool_builder_stack(b) == self.stack(),
    {
        let mut builder = builder_new();
        if let Some(num_threads) = self.num_threads {
            builder = builder_num_threads(builder, num_threads);
        }
        if let Some(stack_size) = self.stack_size {
            builder = builder_stack_size(builder, stack_size);
        }
        builder
    }
}

impl Default for ParallelExecutorOptions {
    fn default() -> (r: Self)
        ensures
            r.threads() is None,
            r.stack() is None,
    {
        ParallelExecutorOptions::new()
    }
}

} // verus!
