//! A discrete-event simulator for two-dimensional mesh/torus processor
//! arrays running parallel matrix-multiplication kernels (broadcast "Hash",
//! Fox-Otto, pipelined Fox-Otto and Cannon) over a closed semiring, with
//! per-worker virtual-time accounting under a configurable latency /
//! bandwidth / startup cost model.

pub mod bench;
pub mod broadcast;
pub mod graph_optimisation;
pub mod matmul;
pub mod processor;
pub mod types;
