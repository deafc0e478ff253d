//! A command multiplier: it expands a base command and groups of argument
//! values into every combination of arguments that is asked for, drops the
//! combinations that the filter and allow rules exclude, and decides in which
//! order processes are started and waited for so that no more than a fixed
//! number of them runs at a time.
//!
//! Everything here computes on plain values. Starting a process and waiting
//! for it is left to the caller, which feeds the outcomes to
//! [`executor::Executor`].
//!
//! The way through the modules: [`cli`] reads the settings of a run and cuts
//! the command line into commands and argument tokens; [`matrix`] builds the
//! argument matrix from the tokens; [`generate`] works out the combinations
//! that a command is run with, using [`product`] to combine values and
//! [`rules`] to drop combinations; [`plan`] puts these steps together; and
//! [`executor`] says in which order the runs are started and awaited.
//! [`text`] and [`sequences`] hold what the others share, and [`calendar`]
//! writes dates.
pub mod calendar;
pub mod cli;
pub mod error;
pub mod executor;
pub mod generate;
pub mod matrix;
pub mod plan;
pub mod product;
pub mod rules;
pub mod sequences;
pub mod text;
