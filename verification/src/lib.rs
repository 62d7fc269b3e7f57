//! A dynamic computational-graph engine for reverse-mode automatic
//! differentiation.
//!
//! Values live in an arena ([`Graph`]) and are addressed by stable handles
//! (`usize` node ids). Every recorded operation is a [`FunctionCall`] that
//! lists its input and output nodes and carries the rule used to propagate
//! gradients. A node owns its creator, and through it the inputs of the
//! creator; a call does not own its outputs. `Graph::sweep` releases what
//! nothing owns any more.
//!
//! [`gradients`] walks the calls behind a set of outputs, orders them from
//! the outputs to the leaves and accumulates the gradient of every target.
//! The gradients are built with the same operations as the values, so
//! they can be differentiated again.
//!
//! The numeric work on array values is delegated to a [`Kernel`], and
//! operations beyond those of [`functions`] to a [`Function`]: the engine
//! itself is independent of the element type. Nothing is assumed of what
//! a kernel returns.
//!
//! A defect of the graph (a cycle, a target that no gradient reaches, a
//! call that has lost an output) is no input of [`gradients`] and
//! [`sort_for_backward`]: their `requires` leave it out. [`try_gradients`]
//! and [`try_sort_for_backward`] take any graph and stop with a
//! [`BackwardError`] that names the call or node at fault.

pub mod backward;
pub mod function;
pub mod functions;
pub mod graph;
pub mod kernel;
pub mod optimize;
pub mod order;
pub mod seq_lemmas;
pub mod shape;
pub mod sweep;
pub mod table;
pub mod walk;

pub use backward::{gradients, try_gradients, BackwardError};
pub use function::{backward_of, call, call_many, Function};
pub use graph::{backprop, FunctionCall, Graph, Node, Rule};
pub use kernel::Kernel;
pub use optimize::{optimize, Optimizee, Update};
pub use order::{sort_for_backward, try_sort_for_backward};
pub use walk::{collect_function_calls, collect_variables, Released};
