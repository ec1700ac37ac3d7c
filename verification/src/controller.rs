//! The controller: commands and samples in, caps and flags out.
//!
//! It is a state machine. A command or a sample is handled in turns, and each
//! turn ends with what has to be done on the machine before the next one
//! ([`machine`], [`samples`], [`commands`]). What the controller holds is
//! spread over [`plain`] (its plain state), [`auto`] and [`lane`] (a closed
//! loop session and its two devices), [`trial`] and [`bench`] (a calibration)
//! and [`board`] (the flags).
//!
//! A closed-loop sample passes through [`intake`], [`drive`], [`writes`] and
//! [`publish`]; [`session`] interrupts and restarts its evidence, [`upkeep`]
//! looks after limits that are already in force, [`verdict`] judges
//! read-backs, and [`steady`] learns from [`windows`] of settled operation.
//! What holds across all of this is in [`laws`]; [`between`] says that nothing
//! is left to report between two calls, [`trips`] what an emergency does and
//! what ends it, [`draws`] when there is a draw to regulate on, and [`nvme`] and
//! [`nvme_turns`] that a hot drive only reports. What is made of the readings is
//! told in exact values in [`readings`], [`heat`], [`entering`], [`keeping`],
//! [`averages`] and [`deviation`], and what the flags show of it in [`shown`].

pub mod auto;
pub mod averages;
pub mod bench;
pub mod between;
pub mod board;
pub mod calibration;
pub mod commands;
pub mod config;
pub mod deviation;
pub mod draws;
pub mod drive;
pub mod effect;
pub mod entering;
pub mod heat;
pub mod intake;
pub mod keeping;
pub mod lane;
pub mod laws;
pub mod machine;
pub mod nvme;
pub mod nvme_turns;
pub mod panel;
pub mod plain;
pub mod publish;
pub mod readings;
pub mod report;
pub mod samples;
pub mod session;
pub mod shown;
pub mod steady;
pub mod trial;
pub mod trips;
pub mod upkeep;
pub mod verdict;
pub mod windows;
pub mod writes;
