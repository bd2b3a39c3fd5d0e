//! A fixed-size worker thread pool, verified at the level of its
//! coordination protocol: FIFO job dispatch through a shared queue,
//! exactly-once execution of every enqueued job, and a two-phase
//! teardown (one stop signal per worker, then join each thread exactly
//! once) that provably terminates. The `request` module holds the one
//! routing decision made for each accepted connection.

pub mod pool;
pub mod request;
