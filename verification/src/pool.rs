//! The worker pool of the thread-pool backend. Everything here is a thin
//! shell around `rayon`; the contracts are taken on trust from its source.

use vstd::prelude::*;

verus! {

/// `rayon::ThreadPool`: a pool of worker threads. Nothing is known of what
/// is inside.
#[verifier::external_type_specification]
#[verifier::external_body]
pub struct ExThreadPool(rayon::ThreadPool);

/// `rayon::ThreadPoolBuildError`: why a pool could not be started. Nothing
/// is known of what is inside.
#[verifier::external_type_specification]
#[verifier::external_body]
pub struct ExThreadPoolBuildError(rayon::ThreadPoolBuildError);

/// A `rayon::ThreadPoolBuilder` with its default spawn handler. Verus cannot
/// name that handler's type, so the builder is kept behind this struct.
#[verifier::external_body]
pub struct PoolBuilder {
    inner: rayon::ThreadPoolBuilder,
}

/// The thread count that the builder was given; `0` stands for "let the
/// backend choose".
pub uninterp spec fn pool_builder_threads(b: PoolBuilder) -> usize;

/// The stack size that the builder was given for its workers, if any.
pub uninterp spec fn pool_builder_stack(b: PoolBuilder) -> Option<usize>;

/// The number of workers that the pool was started with.
pub uninterp spec fn pool_size(pool: rayon::ThreadPool) -> usize;

/// `rayon::ThreadPoolBuilder::new`: a builder with no thread count and no
/// stack size set.
#[verifier::external_body]
pub(crate) fn builder_new() -> (b: PoolBuilder)
    ensures
        pool_builder_threads(b) == 0,
        pool_builder_stack(b) is None,
{
    PoolBuilder { inner: rayon::ThreadPoolBuilder::new() }
}

/// `rayon::ThreadPoolBuilder::num_threads`: sets the thread count and leaves
/// the stack size as it was.
#[verifier::external_body]
pub(crate) fn builder_num_threads(b: PoolBuilder, num_threads: usize) -> (r: PoolBuilder)
    ensures
        pool_builder_threads(r) == num_threads,
        pool_builder_stack(r) == pool_builder_stack(b),
{
    PoolBuilder { inner: b.inner.num_threads(num_threads) }
}

/// `rayon::ThreadPoolBuilder::stack_size`: sets the stack size of the
/// workers and leaves the thread count as it was.
#[verifier::external_body]
pub(crate) fn builder_stack_size(b: PoolBuilder, stack_size: usize) -> (r: PoolBuilder)
    ensures
        pool_builder_threads(r) == pool_builder_threads(b),
        pool_builder_stack(r) == Some(stack_size),
{
    PoolBuilder { inner: b.inner.stack_size(stack_size) }
}

/// `rayon::ThreadPoolBuilder::build`: starts the workers. Whether they can
/// be started depends on the machine, so success is not promised. A pool
/// that was started has at least one worker. Where a thread count was
/// given, the pool has at most that many workers, and exactly that many
/// unless the count is above the most that rayon supports in one pool,
/// which is 255 where pointers are 32 bits wide and more elsewhere.
#[verifier::external_body]
pub(crate) fn builder_build(b: PoolBuilder) -> (r: Result<
    rayon::ThreadPool,
    rayon::ThreadPoolBuildError,
>)
    ensures
        r matches Ok(pool) ==> {
            &&& pool_size(pool) >= 1
            &&& pool_builder_threads(b) > 0 ==> pool_size(pool) <= pool_builder_threads(b)
            &&& 0 < pool_builder_threads(b) <= 255 ==> pool_size(pool) == pool_builder_threads(b)
        },
{
    b.inner.build()
}

/// `rayon::ThreadPool::current_num_threads`: the number of workers of the pool.
#[verifier::external_body]
pub(crate) fn pool_threads(pool: &rayon::ThreadPool) -> (n: usize)
    ensures
        n == pool_size(*pool),
{
    pool.current_num_threads()
}

/// `rayon::ThreadPool::join`: runs both operations in the pool, possibly at
/// the same time, and returns when both are done, with what each returned.
#[verifier::external_body]
pub(crate) fn pool_join<A, B, RA, RB>(pool: &rayon::ThreadPool, oper_a: A, oper_b: B) -> (r: (
    RA,
    RB,
)) where A: FnOnce() -> RA + Send, B: FnOnce() -> RB + Send, RA: Send, RB: Send
    requires
        oper_a.requires(()),
        oper_b.requires(()),
    ensures
        oper_a.ensures((), r.0),
        oper_b.ensures((), r.1),
{
    pool.join(oper_a, oper_b)
}

} // verus!
