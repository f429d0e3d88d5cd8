//! Runs the operations of lock-free algorithms so that those who share a
//! structure help each other: an operation that meets too much contention is
//! queued, and whoever comes next carries it on.

pub mod atomic;
pub mod calls;
pub mod cas;
pub mod contention;
pub mod enqueue;
pub mod help_memory;
pub mod help_order;
pub mod help_queue;
pub mod help_steps;
pub mod laws;
pub mod operation;
pub mod promises;
pub mod queue_promises;
pub mod request;
pub mod run;
pub mod simulation;
pub mod simulator;

pub use crate::atomic::{Atomic, CasByRcu, CasPlan};
pub use crate::calls::Calls;
pub use crate::cas::{
    CasAnswer, CasCall, CasExecutionFailure, CasList, CasState, CasVisit, VersionedCas,
};
pub use crate::contention::{Contention, ContentionMeasure};
pub use crate::enqueue::EnqueueRun;
pub use crate::help_queue::WaitFreeHelpQueue;
pub use crate::operation::{
    HelpEnd, HelpStep, NormalizedLockFree, OperationRecord, OperationRecordBox, OperationState,
    RecordCall,
};
pub use crate::request::RequestRun;
pub use crate::run::{RunAnswer, RunCall, RunEnd};
pub use crate::simulation::RunOutcome;
pub use crate::simulator::{Handle, HelpQueue, TooManyHandles, WaitFreeSimulator};
