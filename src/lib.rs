//! Process and thread management core of a small teaching kernel: control
//! blocks, stride scheduling, blocking synchronization primitives, a
//! deadlock-avoidance gate, the process lifecycle and memory-mapping
//! system calls, all as verified state transitions.
pub mod argv;
pub mod deadlock;
pub mod kernel;
pub mod manager;
pub mod mm;
pub mod mutex;
pub mod process;
pub mod semaphore;
pub mod syscall;
pub mod task;
