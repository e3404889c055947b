//! What holds of a cosync over any number of operations.

pub mod counting;
pub mod events;
pub mod ids;
pub mod turns;
pub mod runs;
pub mod any_run;
pub mod whole_run;
pub mod operations;
pub mod parking;
pub mod sleeping;
pub mod stopping;
pub mod undoing;
pub mod visiting;
