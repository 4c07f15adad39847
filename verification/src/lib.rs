//! Solvers for a set of small daily puzzles.
//!
//! The centre of the crate is [`scheduler`]: a task graph, a walker that
//! hands out the tasks whose prerequisites are finished, smallest name
//! first, and a simulation of a pool of workers that runs the tasks in
//! simulated time.  The other modules solve one puzzle each: [`frequency`],
//! [`inventory`], [`fabric`], [`guards`], [`polymer`], [`coordinates`],
//! [`license_tree`], [`marbles`] and [`stars`].  [`scan`] reads the records
//! of their inputs out of lines of text.
//!
//! Every function carries a contract that Verus checks.  What is believed
//! without proof is marked so where it stands: the contracts of the calls
//! into the `scan_fmt` and `linked_list` crates, and of two functions of the
//! standard library.

pub mod coordinates;
pub mod fabric;
pub mod frequency;
pub mod guards;
pub mod inventory;
pub mod license_tree;
pub mod marbles;
pub mod polymer;
pub mod scan;
pub mod scheduler;
pub mod seqs;
pub mod std_specs;
pub mod stars;
