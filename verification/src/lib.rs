//! A scheduling core: systems with declared access to shared state, run once
//! per tick by a sequential, a thread-pool or a cooperative backend, and the
//! application that runs a startup phase and then a main phase.

pub mod access;
pub mod app;
pub mod error;
pub mod executor;
pub mod laws;
pub mod model;
pub mod multitask_executor;
pub mod options;
pub mod plan;
pub mod pool;
pub mod rayon_executor;
pub mod reorder;
pub mod schedule;
pub mod simple_executor;
pub mod state;
pub mod system;

pub use access::Access;
pub use app::{App, AppBuilder, AppExit, DefaultExecutor, RunDriver, RunOnce, Runner};
pub use error::{AppError, ConfigurationError, FailureCause, SystemFailure};
pub use executor::Executor;
pub use multitask_executor::MultitaskExecutor;
pub use options::ParallelExecutorOptions;
pub use plan::StagePlan;
pub use rayon_executor::RayonExecutor;
pub use schedule::Schedule;
pub use simple_executor::SimpleExecutor;
pub use state::{Container, Resources, SharedState, Slot, World};
pub use system::{Frame, Outcome, SystemDescriptor};
