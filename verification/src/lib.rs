//! Turns a black-and-white video into a netlist of boards, delay elements
//! and connectors that replays it as a pixel display.
//!
//! Each row of the image gets a board with a timing chain on it: a line of
//! delay elements down which a pulse travels, two steps for each frame.
//! Each pixel gets a column on its row's board, headed by a socket. Where
//! a pixel changes from one frame to the next, a delay element listens to
//! the chain at that frame's position and drives the column, and a
//! connector becomes the column's new tap, wired back to the tap before.
//! Every 200 frames a delay element is forced into every column, so that
//! no column's cluster grows without bound; the chain gives the lost tick
//! back at every 400th step.
//!
//! A cluster id names one signal: all pins joined by wires carry the same
//! id, and so does each wire between them.
//!
//! - [`parts`]: components, pins and wires.
//! - [`ids`]: the allocator of addresses and cluster ids.
//! - [`frame`]: frames, and the threshold that makes a pixel on or off.
//! - [`job`]: what a run starts from, what it ends with, how it fails.
//! - [`layout`]: where the boards, chains and sockets go.
//! - [`encode`]: what each frame adds, as mathematics.
//! - [`generator`]: the builder, proved to do just that.
//! - [`soundness`], [`threading`], [`chain`], [`chunks`], [`taps`]: what
//!   holds of every circuit a run passes through.
//! - [`numbers`]: arithmetic of grids.

pub mod chain;
pub mod chunks;
pub mod encode;
pub mod frame;
pub mod generator;
pub mod ids;
pub mod job;
pub mod layout;
pub mod numbers;
pub mod parts;
pub mod soundness;
pub mod taps;
pub mod threading;
