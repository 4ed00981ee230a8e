//! Decision logic of `cronx`, a cron executor that catches up on jobs that
//! were missed while the machine was asleep: reading the user's crontab,
//! deciding which managed jobs to re-run, keeping each job's run history,
//! and installing or removing the catch-up line.
use vstd::prelude::*;

pub mod catchup;
pub mod crontab;
pub mod runner;
pub mod schedule;
pub mod setup;
pub mod state;
pub mod text;
pub mod weekday;

verus! {

} // verus!
