//! Scheduling and control core of a pull-mode audio graph: graph topology,
//! execution order, buffer reuse planning, delay lines, the layout of
//! partitioned convolution and output device selection, each with its
//! contract and proof.
pub mod buffers;
pub mod context;
pub mod control;
pub mod graph;
pub mod names;
pub mod nodes;
pub mod pull;
pub mod topology;
pub mod types;
