//! A fixed-size worker pool that routes each job to a worker of its own by
//! static round robin. `pool` holds the dispatching side, with its verified
//! routing and teardown rules; `worker` holds the decision each worker makes
//! on every receive. Threads and connections are the embedding program's.

pub mod pool;
pub mod worker;
