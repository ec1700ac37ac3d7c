//! Closed-loop power control for a laptop with one CPU and one discrete GPU.
//!
//! The user asks for a fan speed. The loops cap the CPU's sustained power and
//! the GPU's clock so that the temperatures stay where the fan daemon's curve
//! gives that speed.
//!
//! - [`num`], [`rounding`], [`order`], [`precision`]: binary64 numbers, what
//!   their rounded arithmetic is, how it respects order, and how far it is from
//!   exact arithmetic. Every quantity is a [`num::Num`]. [`values`],
//!   [`relative`] and [`grid`] say what comparisons, quotients and grids of
//!   rounded results come to in exact values.
//! - [`types`], [`status`], [`table`], [`text`]: samples, flags, a keyed table
//!   and decimals.
//! - [`budget`], [`integration`], [`windup`], [`allocator`], [`spending`]: the
//!   budget integrator, what a tick of it comes to, what it winds up at a bound,
//!   and how a budget is split between the two devices and spent.
//! - [`device_loop`]: the temperature loop of one device.
//! - [`pid`], [`lut`], [`line`], [`gpu_pid`], [`trimming`]: the GPU's inner loop
//!   from watts to a clock.
//! - [`kalman`], [`estimation`], [`covariance`], [`cooldown`]: what is learned of
//!   the fans, and when.
//! - [`guards`], [`guarding`], [`mode`], [`trust`]: hot guards, which loop may be
//!   trusted, and what either makes of its readings.
//! - [`controller`]: all of it together, as a state machine.

pub mod allocator;
pub mod budget;
pub mod controller;
pub mod cooldown;
pub mod covariance;
pub mod device_loop;
pub mod estimation;
pub mod gpu_pid;
pub mod grid;
pub mod guarding;
pub mod guards;
pub mod integration;
pub mod kalman;
pub mod line;
pub mod lut;
pub mod mode;
pub mod num;
pub mod order;
pub mod pid;
pub mod precision;
pub mod relative;
pub mod rounding;
pub mod spending;
pub mod status;
pub mod table;
pub mod text;
pub mod trimming;
pub mod trust;
pub mod types;
pub mod values;
pub mod windup;
