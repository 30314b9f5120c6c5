//! Assigns teams to cases. Each team ranks the cases, each case takes a quota of teams, and
//! the teams are assigned so that together they pay as little as they can.
//!
//! The ranking file is read by [`record`], with [`text`] and [`score`] below it. The quotas
//! come from the weights of the cases in [`quota`]. [`network`] builds the flow network of
//! the teams and the cases, [`solver`] hands it to the `mcmf` crate, and [`extraction`] reads
//! the assignment from what comes back. [`assignment`], [`flow`] and [`matching`] say what an
//! assignment and a flow are and how the two are tied. [`engine`] puts the steps together, and
//! [`message`] says in words what went wrong.

pub mod assignment;
pub mod engine;
pub mod extraction;
pub mod flow;
pub mod matching;
pub mod message;
pub mod network;
pub mod quota;
pub mod record;
pub mod score;
pub mod solver;
pub mod text;
